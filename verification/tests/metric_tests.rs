use lau_tensor_analysis::metric::{MetricSignature, MetricTensor};
use lau_tensor_analysis::tensor::{IndexType, Tensor};
use nalgebra::DMatrix;

fn add_product(s: f64, (a, b): (f64, f64)) -> f64 {
    s + a * b
}

/// A metric with its numerically inverted matrix, as a metric built from a
/// matrix is.
fn metric_from_rows(dim: usize, rows: Vec<f64>, signature: MetricSignature) -> MetricTensor<f64> {
    let m = DMatrix::from_row_slice(dim, dim, &rows);
    let inv = m.try_inverse().expect("Metric must be invertible");
    let mut inv_data = vec![0.0; dim * dim];
    for i in 0..dim {
        for j in 0..dim {
            inv_data[i * dim + j] = inv[(i, j)];
        }
    }
    MetricTensor {
        dim,
        g: Tensor::rank2(dim, [IndexType::Covariant, IndexType::Covariant], rows),
        g_inv: Tensor::rank2(dim, [IndexType::Contravariant, IndexType::Contravariant], inv_data),
        signature,
    }
}

fn flat(dim: usize) -> MetricTensor<f64> {
    let mut rows = vec![0.0; dim * dim];
    for i in 0..dim {
        rows[i * dim + i] = 1.0;
    }
    metric_from_rows(dim, rows, MetricSignature::Riemannian)
}

fn minkowski(dim: usize) -> MetricTensor<f64> {
    let mut rows = vec![0.0; dim * dim];
    for i in 0..dim {
        rows[i * dim + i] = 1.0;
    }
    rows[0] = -1.0;
    metric_from_rows(dim, rows, MetricSignature::Lorentzian)
}

fn sphere_2_at_theta(theta: f64) -> MetricTensor<f64> {
    let sin2 = theta.sin().powi(2);
    metric_from_rows(2, vec![1.0, 0.0, 0.0, sin2], MetricSignature::Riemannian)
}

fn schwarzschild(rs: f64, r: f64, theta: f64) -> MetricTensor<f64> {
    let f = 1.0 - rs / r;
    metric_from_rows(
        4,
        vec![
            -f, 0.0, 0.0, 0.0,
            0.0, 1.0 / f, 0.0, 0.0,
            0.0, 0.0, r * r, 0.0,
            0.0, 0.0, 0.0, r * r * theta.sin().powi(2),
        ],
        MetricSignature::Lorentzian,
    )
}

fn symmetric_within(tol: f64) -> impl Fn(f64, f64) -> bool {
    move |a: f64, b: f64| !((a - b).abs() > tol)
}

#[test]
fn test_flat_metric() {
    let m = flat(3);
    assert!(m.is_symmetric_with(symmetric_within(1e-10)));
    assert_eq!(m.get(0, 0), 1.0);
    assert_eq!(m.get(0, 1), 0.0);
}

#[test]
fn test_minkowski_metric() {
    let m = minkowski(4);
    assert_eq!(m.get(0, 0), -1.0);
    assert_eq!(m.get(1, 1), 1.0);
    assert_eq!(m.signature, MetricSignature::Lorentzian);
}

#[test]
fn test_sphere_metric() {
    let m = sphere_2_at_theta(std::f64::consts::FRAC_PI_2);
    assert!((m.get(0, 0) - 1.0).abs() < 1e-10);
    assert!((m.get(1, 1) - 1.0).abs() < 1e-10);
}

#[test]
fn test_inverse_metric() {
    let m = flat(3);
    // For flat metric, inverse = identity
    assert!((m.get_inv(0, 0) - 1.0).abs() < 1e-10);
    assert!((m.get_inv(1, 2)).abs() < 1e-10);
}

#[test]
fn test_raise_lower_roundtrip() {
    let m = flat(3);
    let v = Tensor::vector(3, vec![1.0, 2.0, 3.0], IndexType::Contravariant);
    let v_lowered = m.lower_index_with(&v, 0, 0.0, add_product);
    let v_raised = m.raise_index_with(&v_lowered, 0, 0.0, add_product);
    assert!(v.approx_eq_with(&v_raised, |a: f64, b: f64| (a - b).abs() < 1e-10));
}

#[test]
fn test_schwarzschild_metric() {
    let m = schwarzschild(2.0, 10.0, std::f64::consts::FRAC_PI_2);
    assert!(m.is_symmetric_with(symmetric_within(1e-10)));
    assert!(m.get(0, 0) < 0.0); // g_tt < 0
    assert!(m.get(1, 1) > 0.0); // g_rr > 0
}

#[test]
fn test_metric_signature() {
    let m = flat(3);
    assert_eq!(m.signature, MetricSignature::Riemannian);
    let m2 = minkowski(4);
    assert_eq!(m2.signature, MetricSignature::Lorentzian);
}

#[test]
fn test_schwarzschild_metric_determinant() {
    let m = schwarzschild(2.0, 10.0, std::f64::consts::FRAC_PI_2);
    // det(g) = -(1-2/r) * (1/(1-2/r)) * r^2 * r^2 = -r^4
    // At r=10: -10000
    let g_matrix = DMatrix::from_row_slice(4, 4, &m.g.to_vec());
    let det = g_matrix.determinant();
    assert!((det - (-10000.0)).abs() < 1e-6, "det(g) = {}, expected -10000", det);
}

#[test]
fn test_schwarzschild_inverse() {
    let m = schwarzschild(2.0, 10.0, std::f64::consts::FRAC_PI_2);
    // g^{tt} * g_{tt} should be 1
    let prod = m.g_inv.get2(0, 0) * m.g.get2(0, 0);
    assert!((prod - 1.0).abs() < 1e-10);
}

#[test]
fn asymmetric_metric_is_reported() {
    let m = MetricTensor {
        dim: 2,
        g: Tensor::rank2(2, [IndexType::Covariant, IndexType::Covariant], vec![1.0, 0.5, 0.25, 1.0]),
        g_inv: Tensor::rank2(2, [IndexType::Contravariant, IndexType::Contravariant], vec![0.0; 4]),
        signature: MetricSignature::PseudoRiemannian { p: 1, q: 1 },
    };
    assert!(!m.is_symmetric_with(symmetric_within(1e-10)));
    assert!(m.is_symmetric_with(symmetric_within(0.5)));
}

#[test]
fn lowering_with_a_diagonal_metric_scales_components() {
    let m = minkowski(3);
    let v = Tensor::vector(3, vec![2.0, 3.0, 4.0], IndexType::Contravariant);
    let lowered = m.lower_index_with(&v, 0, 0.0, add_product);
    assert_eq!(lowered.index_types, vec![IndexType::Covariant]);
    assert_eq!(lowered.to_vec(), vec![-2.0, 3.0, 4.0]);
    let raised = m.raise_index_with(&lowered, 0, 0.0, add_product);
    assert_eq!(raised.index_types, vec![IndexType::Contravariant]);
    assert_eq!(raised.to_vec(), vec![2.0, 3.0, 4.0]);
}

#[test]
fn raising_the_second_index_of_a_rank2_tensor() {
    // g^ij = diag(1, 2); T_{ij} = [[1, 2], [3, 4]]; raising j gives T_i^j = T_ik g^kj.
    let m = MetricTensor {
        dim: 2,
        g: Tensor::rank2(2, [IndexType::Covariant, IndexType::Covariant], vec![1.0, 0.0, 0.0, 0.5]),
        g_inv: Tensor::rank2(2, [IndexType::Contravariant, IndexType::Contravariant], vec![1.0, 0.0, 0.0, 2.0]),
        signature: MetricSignature::Riemannian,
    };
    let t = Tensor::rank2(2, [IndexType::Covariant, IndexType::Covariant], vec![1.0, 2.0, 3.0, 4.0]);
    let r = m.raise_index_with(&t, 1, 0.0, add_product);
    assert_eq!(r.index_types, vec![IndexType::Covariant, IndexType::Contravariant]);
    assert_eq!(r.to_vec(), vec![1.0, 4.0, 3.0, 8.0]);
}

#[test]
fn lowering_then_raising_any_index_is_exact_with_an_exact_inverse() {
    // g = [[2, 1], [1, 1]] has the integer inverse [[1, -1], [-1, 2]].
    let m = MetricTensor {
        dim: 2,
        g: Tensor::rank2(2, [IndexType::Covariant, IndexType::Covariant], vec![2.0, 1.0, 1.0, 1.0]),
        g_inv: Tensor::rank2(2, [IndexType::Contravariant, IndexType::Contravariant], vec![1.0, -1.0, -1.0, 2.0]),
        signature: MetricSignature::Riemannian,
    };
    let mut t = Tensor::zeros(2, vec![IndexType::Covariant, IndexType::Contravariant, IndexType::Contravariant], 0.0);
    for i in 0..2 {
        for j in 0..2 {
            for k in 0..2 {
                t.set3(i, j, k, (3 * i + 5 * j + 7 * k) as f64 - 4.0);
            }
        }
    }
    for pos in 1..3 {
        let lowered = m.lower_index_with(&t, pos, 0.0, add_product);
        let raised = m.raise_index_with(&lowered, pos, 0.0, add_product);
        assert_eq!(raised.index_types, t.index_types);
        assert_eq!(raised.data, t.data);
    }
}

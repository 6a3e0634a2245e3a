use lau_tensor_analysis::lie::{
    lie_derivative_covector_with, lie_derivative_kind, lie_derivative_rank2_covariant_with,
    lie_derivative_scalar_with, lie_derivative_vector_with, lie_derivative_with, LieDerivativeKind,
};
use lau_tensor_analysis::tensor::{IndexType, Tensor};

fn add_product(s: f64, (a, b): (f64, f64)) -> f64 {
    s + a * b
}

fn bracket_step(s: f64, (a, b, c, e): (f64, f64, f64, f64)) -> f64 {
    s + (a * b - c * e)
}

fn covector_step(s: f64, (a, b, c, e): (f64, f64, f64, f64)) -> f64 {
    s + (a * b + c * e)
}

fn rank2_step(s: f64, (a, b, c, e, f, g): (f64, f64, f64, f64, f64, f64)) -> f64 {
    s + (a * b + c * e + f * g)
}

fn lie_derivative_scalar(v: &Tensor<f64>, grad_f: &Tensor<f64>) -> f64 {
    lie_derivative_scalar_with(v, grad_f, 0.0, add_product)
}

fn lie_derivative_vector(v: &Tensor<f64>, w: &Tensor<f64>, dw: &Tensor<f64>, dv: &Tensor<f64>) -> Tensor<f64> {
    lie_derivative_vector_with(v, w, dw, dv, 0.0, bracket_step)
}

#[test]
fn test_lie_derivative_scalar() {
    let v = Tensor::vector(2, vec![1.0, 0.0], IndexType::Contravariant);
    let grad_f = Tensor::vector(2, vec![2.0, 3.0], IndexType::Covariant);
    let result = lie_derivative_scalar(&v, &grad_f);
    assert!((result - 2.0).abs() < 1e-10);
}

#[test]
fn test_lie_derivative_scalar_general() {
    let v = Tensor::vector(3, vec![1.0, 2.0, 3.0], IndexType::Contravariant);
    let grad_f = Tensor::vector(3, vec![1.0, 1.0, 1.0], IndexType::Covariant);
    let result = lie_derivative_scalar(&v, &grad_f);
    assert!((result - 6.0).abs() < 1e-10);
}

#[test]
fn test_lie_derivative_vector_zero() {
    // Lie derivative of a vector along itself: [V, V] = 0
    let v = Tensor::vector(2, vec![1.0, 2.0], IndexType::Contravariant);
    let dv = Tensor::rank2(2, [IndexType::Contravariant, IndexType::Covariant], vec![0.0; 4]);
    let result = lie_derivative_vector(&v, &v, &dv, &dv);
    assert!(result.data.iter().all(|&x| x.abs() < 1e-10));
}

#[test]
fn test_lie_derivative_vector_nontrivial() {
    // V = (x, y), W = (y, x) in 2D, at point (1,1)
    let v = Tensor::vector(2, vec![1.0, 1.0], IndexType::Contravariant);
    let w = Tensor::vector(2, vec![1.0, 1.0], IndexType::Contravariant);
    let dw = Tensor::rank2(2, [IndexType::Contravariant, IndexType::Covariant], vec![
        0.0, 1.0,
        1.0, 0.0,
    ]);
    let dv = Tensor::rank2(2, [IndexType::Contravariant, IndexType::Covariant], vec![
        1.0, 0.0,
        0.0, 1.0,
    ]);
    let result = lie_derivative_vector(&v, &w, &dw, &dv);
    assert!((result.get1(0) - 0.0).abs() < 1e-10);
    assert!((result.get1(1) - 0.0).abs() < 1e-10);
}

#[test]
fn test_lie_derivative_covector() {
    let v = Tensor::vector(2, vec![1.0, 0.0], IndexType::Contravariant);
    let omega = Tensor::vector(2, vec![0.0, 1.0], IndexType::Covariant);
    let domega = Tensor::rank2(2, [IndexType::Covariant, IndexType::Covariant], vec![
        0.0, 0.0,
        0.0, 0.0,
    ]);
    let dv = Tensor::rank2(2, [IndexType::Contravariant, IndexType::Covariant], vec![
        0.0, 0.0,
        0.0, 0.0,
    ]);
    let result = lie_derivative_covector_with(&v, &omega, &domega, &dv, 0.0, covector_step);
    assert!(result.data.iter().all(|&x| x.abs() < 1e-10));
}

#[test]
fn test_lie_derivative_rank2() {
    let v = Tensor::vector(2, vec![1.0, 0.0], IndexType::Contravariant);
    let t = Tensor::rank2(2, [IndexType::Covariant, IndexType::Covariant], vec![
        1.0, 0.0,
        0.0, 1.0,
    ]);
    let dt = Tensor::zeros(2, vec![IndexType::Covariant, IndexType::Covariant, IndexType::Covariant], 0.0);
    let dv = Tensor::rank2(2, [IndexType::Contravariant, IndexType::Covariant], vec![
        0.0, 0.0,
        0.0, 0.0,
    ]);
    let result = lie_derivative_rank2_covariant_with(&v, &t, &dt, &dv, 0.0, rank2_step);
    // With zero dv and zero dt, result is zero
    assert!(result.data.iter().all(|&x| x.abs() < 1e-10));
}

#[test]
fn test_lie_derivative_antisymmetry_bracket() {
    // [V,W] = -[W,V]
    let v = Tensor::vector(2, vec![1.0, 0.0], IndexType::Contravariant);
    let w = Tensor::vector(2, vec![0.0, 1.0], IndexType::Contravariant);
    let dv = Tensor::rank2(2, [IndexType::Contravariant, IndexType::Covariant], vec![
        0.0, 0.0,
        0.0, 0.0,
    ]);
    let dw = Tensor::rank2(2, [IndexType::Contravariant, IndexType::Covariant], vec![
        0.0, 0.0,
        0.0, 0.0,
    ]);
    let lvw = lie_derivative_vector(&v, &w, &dw, &dv);
    let lwv = lie_derivative_vector(&w, &v, &dv, &dw);
    for i in 0..2 {
        assert!((lvw.get1(i) + lwv.get1(i)).abs() < 1e-10);
    }
}

#[test]
fn test_lie_derivative_scalar_zero_vector() {
    let v = Tensor::vector(3, vec![0.0; 3], IndexType::Contravariant);
    let grad = Tensor::vector(3, vec![1.0, 2.0, 3.0], IndexType::Covariant);
    let result = lie_derivative_scalar(&v, &grad);
    assert!((result).abs() < 1e-10);
}

#[test]
fn bracket_of_rotation_and_dilation_fields() {
    // V = (-y, x) and W = (x, 0) at (1, 2): [V, W] = V·∇W - W·∇V = (-2, 0) - (0, 1).
    let v = Tensor::vector(2, vec![-2.0, 1.0], IndexType::Contravariant);
    let dv = Tensor::rank2(2, [IndexType::Contravariant, IndexType::Covariant], vec![0.0, -1.0, 1.0, 0.0]);
    let w = Tensor::vector(2, vec![1.0, 0.0], IndexType::Contravariant);
    let dw = Tensor::rank2(2, [IndexType::Contravariant, IndexType::Covariant], vec![1.0, 0.0, 0.0, 0.0]);
    let r = lie_derivative_vector(&v, &w, &dw, &dv);
    assert_eq!(r.to_vec(), vec![-2.0, -1.0]);
    let back = lie_derivative_vector(&w, &v, &dv, &dw);
    assert_eq!(back.to_vec(), vec![2.0, 1.0]);
}

#[test]
fn covector_and_rank2_formulas_use_the_transposed_field_derivative() {
    // (L_V ω)_i = V^j ∂ω_i/∂x^j + ω_j ∂V^j/∂x^i
    let v = Tensor::vector(2, vec![1.0, 2.0], IndexType::Contravariant);
    let omega = Tensor::vector(2, vec![3.0, 5.0], IndexType::Covariant);
    let domega = Tensor::rank2(2, [IndexType::Covariant, IndexType::Covariant], vec![1.0, 0.0, 0.0, 1.0]);
    let dv = Tensor::rank2(2, [IndexType::Contravariant, IndexType::Covariant], vec![0.0, 1.0, 0.0, 0.0]);
    let r = lie_derivative_covector_with(&v, &omega, &domega, &dv, 0.0, covector_step);
    // i = 0: V^0·1 + ω_0 ∂V^0/∂x^0 + ω_1 ∂V^1/∂x^0 = 1; i = 1: V^1·1 + ω_0 ∂V^0/∂x^1 = 2 + 3
    assert_eq!(r.to_vec(), vec![1.0, 5.0]);
    // (L_V T)_{ij} = V^k ∂T_ij/∂x^k + T_kj ∂V^k/∂x^i + T_ik ∂V^k/∂x^j with T = δ
    let t = Tensor::rank2(2, [IndexType::Covariant, IndexType::Covariant], vec![1.0, 0.0, 0.0, 1.0]);
    let dt = Tensor::zeros(2, vec![IndexType::Covariant; 3], 0.0);
    let r2 = lie_derivative_rank2_covariant_with(&v, &t, &dt, &dv, 0.0, rank2_step);
    // only ∂V^0/∂x^1 = 1: (i, j) = (0, 1) and (1, 0) get 1
    assert_eq!(r2.to_vec(), vec![0.0, 1.0, 1.0, 0.0]);
}

#[test]
fn lie_derivative_kind_follows_the_index_types() {
    let contravariant = IndexType::Contravariant;
    let covariant = IndexType::Covariant;
    assert_eq!(lie_derivative_kind(&vec![]), Some(LieDerivativeKind::Scalar));
    assert_eq!(lie_derivative_kind(&vec![contravariant]), Some(LieDerivativeKind::Vector));
    assert_eq!(lie_derivative_kind(&vec![covariant]), Some(LieDerivativeKind::Covector));
    assert_eq!(lie_derivative_kind(&vec![covariant, covariant]), Some(LieDerivativeKind::CovariantRank2));
    assert_eq!(lie_derivative_kind(&vec![contravariant, covariant]), None);
    assert_eq!(lie_derivative_kind(&vec![covariant; 3]), None);
}

#[test]
fn lie_derivative_dispatch_picks_the_formula() {
    let v = Tensor::vector(2, vec![1.0, 2.0], IndexType::Contravariant);
    let dv = Tensor::rank2(2, [IndexType::Contravariant, IndexType::Covariant], vec![0.0, 1.0, 0.0, 0.0]);
    let omega = Tensor::vector(2, vec![3.0, 5.0], IndexType::Covariant);
    let domega = Tensor::rank2(2, [IndexType::Covariant, IndexType::Covariant], vec![1.0, 0.0, 0.0, 1.0]);
    let r = lie_derivative_with(&v, &omega, &domega, &dv, 0.0, add_product, bracket_step, covector_step, rank2_step);
    assert_eq!(r.index_types, vec![IndexType::Covariant]);
    assert_eq!(r.to_vec(), vec![1.0, 5.0]);
    let w = Tensor::vector(2, vec![3.0, 5.0], IndexType::Contravariant);
    let r = lie_derivative_with(&v, &w, &domega, &dv, 0.0, add_product, bracket_step, covector_step, rank2_step);
    assert_eq!(r.index_types, vec![IndexType::Contravariant]);
    // V^j ∂W^i/∂x^j - W^j ∂V^i/∂x^j: i = 0: 1 - 5; i = 1: 2 - 0
    assert_eq!(r.to_vec(), vec![-4.0, 2.0]);
    let t = Tensor::rank2(2, [IndexType::Covariant, IndexType::Covariant], vec![1.0, 0.0, 0.0, 1.0]);
    let dt = Tensor::zeros(2, vec![IndexType::Covariant; 3], 0.0);
    let r = lie_derivative_with(&v, &t, &dt, &dv, 0.0, add_product, bracket_step, covector_step, rank2_step);
    assert_eq!(r.to_vec(), vec![0.0, 1.0, 1.0, 0.0]);
}

#[test]
fn lie_derivative_of_a_scalar_reads_the_gradient() {
    let v = Tensor::vector(2, vec![1.0, 2.0], IndexType::Contravariant);
    let f = Tensor::scalar_with_dim(7.0, 2);
    let grad_f = Tensor::vector(2, vec![3.0, 5.0], IndexType::Covariant);
    let dv = Tensor::rank2(2, [IndexType::Contravariant, IndexType::Covariant], vec![0.0, 1.0, 0.0, 0.0]);
    let r = lie_derivative_with(&v, &f, &grad_f, &dv, 0.0, add_product, bracket_step, covector_step, rank2_step);
    assert!(r.index_types.is_empty());
    assert_eq!(r.dim, 2);
    // V^i ∂f/∂x^i = 1 * 3 + 2 * 5
    assert_eq!(r.data, vec![13.0]);
}

#[test]
fn lie_bracket_antisymmetry_is_exact() {
    let v = Tensor::vector(3, vec![0.3, -1.7, 2.9], IndexType::Contravariant);
    let w = Tensor::vector(3, vec![1.1, 0.25, -0.6], IndexType::Contravariant);
    let dv = Tensor::rank2(3, [IndexType::Contravariant, IndexType::Covariant],
        vec![0.5, -0.2, 0.9, 1.3, 0.0, -0.7, 0.11, 0.23, -0.31]);
    let dw = Tensor::rank2(3, [IndexType::Contravariant, IndexType::Covariant],
        vec![-0.4, 0.8, 0.15, 0.6, -1.2, 0.05, 0.33, -0.27, 0.9]);
    let lvw = lie_derivative_vector(&v, &w, &dw, &dv);
    let lwv = lie_derivative_vector(&w, &v, &dv, &dw);
    for i in 0..3 {
        assert_eq!(lwv.get1(i), -lvw.get1(i));
    }
}

#[test]
fn bracket_of_a_field_with_itself_vanishes_exactly() {
    let v = Tensor::vector(3, vec![0.3, -1.7, 2.9], IndexType::Contravariant);
    let dv = Tensor::rank2(3, [IndexType::Contravariant, IndexType::Covariant],
        vec![0.5, -0.2, 0.9, 1.3, 0.0, -0.7, 0.11, 0.23, -0.31]);
    let r = lie_derivative_vector(&v, &v, &dv, &dv);
    assert!(r.data.iter().all(|&x| x == 0.0));
}

#[test]
fn lie_dispatch_matches_each_formula() {
    let v = Tensor::vector(2, vec![0.5, -2.0], IndexType::Contravariant);
    let dv = Tensor::rank2(2, [IndexType::Contravariant, IndexType::Covariant], vec![1.0, 3.0, -1.0, 2.0]);
    let w = Tensor::vector(2, vec![4.0, 1.5], IndexType::Contravariant);
    let dw = Tensor::rank2(2, [IndexType::Contravariant, IndexType::Covariant], vec![0.25, 1.0, 2.0, -3.0]);
    let r = lie_derivative_with(&v, &w, &dw, &dv, 0.0, add_product, bracket_step, covector_step, rank2_step);
    assert_eq!(r.data, lie_derivative_vector(&v, &w, &dw, &dv).data);
    let omega = Tensor::vector(2, vec![4.0, 1.5], IndexType::Covariant);
    let r = lie_derivative_with(&v, &omega, &dw, &dv, 0.0, add_product, bracket_step, covector_step, rank2_step);
    let direct = lie_derivative_covector_with(&v, &omega, &dw, &dv, 0.0, covector_step);
    assert_eq!(r.data, direct.data);
    let t = Tensor::rank2(2, [IndexType::Covariant, IndexType::Covariant], vec![1.0, 2.0, 3.0, 4.0]);
    let mut dt = Tensor::zeros(2, vec![IndexType::Covariant; 3], 0.0);
    dt.set3(0, 1, 0, 5.0);
    dt.set3(1, 1, 1, -2.0);
    let r = lie_derivative_with(&v, &t, &dt, &dv, 0.0, add_product, bracket_step, covector_step, rank2_step);
    let direct = lie_derivative_rank2_covariant_with(&v, &t, &dt, &dv, 0.0, rank2_step);
    assert_eq!(r.data, direct.data);
    let f = Tensor::scalar_with_dim(3.0, 2);
    let r = lie_derivative_with(&v, &f, &omega, &dv, 0.0, add_product, bracket_step, covector_step, rank2_step);
    assert_eq!(r.data, vec![lie_derivative_scalar(&v, &omega)]);
}

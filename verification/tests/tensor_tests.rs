use lau_tensor_analysis::checks::{all_components, all_pairs, all_quads, all_triples};
use lau_tensor_analysis::layout::{flatten_idx, increment_multi_index};
use lau_tensor_analysis::products::{copy_types, same_types};
use lau_tensor_analysis::tensor::component_count;
use lau_tensor_analysis::tensor::{IndexType, Tensor};

fn plus(a: f64, b: f64) -> f64 {
    a + b
}

fn times(a: f64, b: f64) -> f64 {
    a * b
}

fn close(tol: f64) -> impl Fn(f64, f64) -> bool {
    move |a: f64, b: f64| (a - b).abs() < tol
}

#[test]
fn test_scalar_tensor() {
    let t = Tensor::scalar(42.0);
    assert_eq!(t.rank(), 0);
    assert_eq!(t.scalar_value(), 42.0);
}

#[test]
fn test_vector_tensor() {
    let t = Tensor::vector(3, vec![1.0, 2.0, 3.0], IndexType::Contravariant);
    assert_eq!(t.rank(), 1);
    assert_eq!(t.get1(0), 1.0);
    assert_eq!(t.get1(2), 3.0);
}

#[test]
fn test_rank2_tensor() {
    let mut t = Tensor::zeros(2, vec![IndexType::Covariant, IndexType::Covariant], 0.0);
    t.set2(0, 1, 5.0);
    assert_eq!(t.get2(0, 1), 5.0);
    assert_eq!(t.get2(1, 0), 0.0);
}

#[test]
fn test_tensor_addition() {
    let a = Tensor::vector(2, vec![1.0, 2.0], IndexType::Contravariant);
    let b = Tensor::vector(2, vec![3.0, 4.0], IndexType::Contravariant);
    let c = a.add_with(&b, plus);
    assert_eq!(c.get1(0), 4.0);
    assert_eq!(c.get1(1), 6.0);
}

#[test]
fn test_scalar_mult() {
    let a = Tensor::vector(2, vec![1.0, 2.0], IndexType::Contravariant);
    let c = a.scale_with(|x: f64| x * 3.0);
    assert_eq!(c.get1(0), 3.0);
    assert_eq!(c.get1(1), 6.0);
}

#[test]
fn test_outer_product() {
    let a = Tensor::vector(2, vec![1.0, 2.0], IndexType::Contravariant);
    let b = Tensor::vector(2, vec![3.0, 4.0], IndexType::Covariant);
    let c = a.outer_product_with(&b, times);
    assert_eq!(c.rank(), 2);
    assert_eq!(c.get2(0, 0), 3.0);
    assert_eq!(c.get2(0, 1), 4.0);
    assert_eq!(c.get2(1, 0), 6.0);
    assert_eq!(c.get2(1, 1), 8.0);
}

#[test]
fn test_contraction() {
    // Kronecker delta as a rank-2 tensor, contract to get trace = dim
    let mut delta = Tensor::zeros(3, vec![IndexType::Contravariant, IndexType::Covariant], 0.0);
    for i in 0..3 {
        delta.set2(i, i, 1.0);
    }
    let trace = delta.contract_with(0, 1, 0.0, plus);
    assert_eq!(trace.rank(), 0);
    assert!((trace.scalar_value() - 3.0).abs() < 1e-10);
}

#[test]
fn test_approx_eq() {
    let a = Tensor::vector(2, vec![1.0, 2.0], IndexType::Contravariant);
    let b = Tensor::vector(2, vec![1.0 + 1e-12, 2.0], IndexType::Contravariant);
    assert!(a.approx_eq_with(&b, close(1e-9)));
}

#[test]
fn test_tensor_type_notation() {
    // Contravariant vector: V^i
    let v = Tensor::vector(3, vec![1.0, 2.0, 3.0], IndexType::Contravariant);
    assert_eq!(v.rank(), 1);
    assert_eq!(v.index_types[0], IndexType::Contravariant);

    // Covariant vector (1-form): ω_i
    let omega = Tensor::vector(3, vec![1.0, 2.0, 3.0], IndexType::Covariant);
    assert_eq!(omega.index_types[0], IndexType::Covariant);

    // Mixed rank-2 tensor: T^i_j
    let t = Tensor::rank2(3, [IndexType::Contravariant, IndexType::Covariant], vec![1.0; 9]);
    assert_eq!(t.index_types, vec![IndexType::Contravariant, IndexType::Covariant]);
}

#[test]
fn test_tensor_product_associativity() {
    let a = Tensor::vector(2, vec![1.0, 2.0], IndexType::Contravariant);
    let b = Tensor::vector(2, vec![3.0, 4.0], IndexType::Covariant);
    let c = Tensor::vector(2, vec![5.0, 6.0], IndexType::Covariant);

    let ab_c = a.outer_product_with(&b, times).outer_product_with(&c, times);
    let a_bc = a.outer_product_with(&b.outer_product_with(&c, times), times);
    assert!(ab_c.approx_eq_with(&a_bc, close(1e-10)));
}

#[test]
fn test_tensor_display() {
    let t = Tensor::vector(3, vec![1.0, 2.0, 3.0], IndexType::Contravariant);
    let s = t.to_string();
    assert!(s.contains("rank=1"));
    assert!(s.contains("↑"));
}

#[test]
fn display_of_mixed_rank2_tensor_lists_every_index() {
    let t = Tensor::rank2(12, [IndexType::Contravariant, IndexType::Covariant], vec![0.0; 144]);
    assert_eq!(t.to_string(), "Tensor(dim=12, rank=2, ↑, ↓)");
    let s = Tensor::scalar(1.0);
    assert_eq!(s.to_string(), "Tensor(dim=1, rank=0, )");
}

#[test]
fn zeros_has_dim_to_the_rank_components() {
    let t = Tensor::zeros(3, vec![IndexType::Covariant; 3], 0.0);
    assert_eq!(t.data.len(), 27);
    assert!(t.data.iter().all(|&x| x == 0.0));
    let s = Tensor::zeros(4, vec![], 7.0);
    assert_eq!(s.data, vec![7.0]);
}

#[test]
fn scalar_with_dim_keeps_the_dimension() {
    let t = Tensor::scalar_with_dim(2.5, 4);
    assert_eq!(t.dim, 4);
    assert_eq!(t.rank(), 0);
    assert_eq!(t.scalar_value(), 2.5);
}

#[test]
fn rank3_and_rank4_components_are_row_major() {
    let mut t = Tensor::zeros(2, vec![IndexType::Covariant; 3], 0.0);
    t.set3(1, 0, 1, 9.0);
    assert_eq!(t.data[5], 9.0);
    assert_eq!(t.get3(1, 0, 1), 9.0);
    let data: Vec<f64> = (0..16).map(|x| x as f64).collect();
    let mut r = Tensor::rank4(
        2,
        [IndexType::Contravariant, IndexType::Covariant, IndexType::Covariant, IndexType::Covariant],
        data,
    );
    assert_eq!(r.get4(1, 0, 1, 1), 11.0);
    r.set4(0, 1, 1, 0, -1.0);
    assert_eq!(r.data[6], -1.0);
}

#[test]
fn get_multi_and_set_multi_agree_with_fixed_rank_access() {
    let mut t = Tensor::zeros(3, vec![IndexType::Covariant; 3], 0.0);
    t.set_multi(&[2, 1, 0], 4.0);
    assert_eq!(t.get3(2, 1, 0), 4.0);
    assert_eq!(t.get_multi(&[2, 1, 0]), 4.0);
    assert_eq!(t.data[21], 4.0);
}

#[test]
fn set1_changes_only_one_component() {
    let mut v = Tensor::vector(3, vec![1.0, 2.0, 3.0], IndexType::Covariant);
    v.set1(1, -2.0);
    assert_eq!(v.to_vec(), vec![1.0, -2.0, 3.0]);
}

#[test]
fn contraction_of_rank3_keeps_the_free_index() {
    // T^i_{jk} = i + 10 j + 100 k on dim 2; contracting (0, 1) sums T^c_{ck}.
    let mut t = Tensor::zeros(
        2,
        vec![IndexType::Contravariant, IndexType::Covariant, IndexType::Covariant],
        0.0,
    );
    for i in 0..2 {
        for j in 0..2 {
            for k in 0..2 {
                t.set3(i, j, k, (i + 10 * j + 100 * k) as f64);
            }
        }
    }
    let c = t.contract_with(0, 1, 0.0, plus);
    assert_eq!(c.index_types, vec![IndexType::Covariant]);
    assert_eq!(c.to_vec(), vec![11.0, 211.0]);
    let c2 = t.contract_with(2, 0, 0.0, plus);
    assert_eq!(c2.index_types, vec![IndexType::Covariant]);
    // sum over c of T^c_{j c}: j = 0 -> 0 + 101, j = 1 -> 10 + 111
    assert_eq!(c2.to_vec(), vec![101.0, 121.0]);
}

#[test]
fn addition_and_scaling_keep_the_shape() {
    let a = Tensor::rank2(2, [IndexType::Covariant, IndexType::Covariant], vec![1.0, 2.0, 3.0, 4.0]);
    let b = a.scale_with(|x: f64| x * -1.0);
    let z = a.add_with(&b, plus);
    assert_eq!(z.index_types, a.index_types);
    assert!(z.data.iter().all(|&x| x == 0.0));
}

#[test]
fn approx_eq_rejects_other_shapes_and_far_components() {
    let a = Tensor::vector(2, vec![1.0, 2.0], IndexType::Contravariant);
    let b = Tensor::vector(2, vec![1.0, 2.0], IndexType::Covariant);
    let c = Tensor::vector(2, vec![1.0, 2.1], IndexType::Contravariant);
    let d = Tensor::vector(3, vec![1.0, 2.0, 0.0], IndexType::Contravariant);
    assert!(!a.approx_eq_with(&b, close(1e-9)));
    assert!(!a.approx_eq_with(&c, close(1e-9)));
    assert!(!a.approx_eq_with(&d, close(1e-9)));
}

#[test]
fn flatten_idx_is_row_major() {
    assert_eq!(flatten_idx(&[1, 2, 3], 3, 4), 1 * 16 + 2 * 4 + 3);
    assert_eq!(flatten_idx(&[], 0, 5), 0);
    // only the first `rank` entries count
    assert_eq!(flatten_idx(&[2, 1, 9], 2, 3), 7);
}

#[test]
fn increment_multi_index_walks_storage_order() {
    let mut idx = vec![0usize, 0];
    let mut seen = Vec::new();
    loop {
        seen.push(flatten_idx(&idx, 2, 3));
        if increment_multi_index(&mut idx, 3) {
            break;
        }
    }
    assert_eq!(seen, (0..9).collect::<Vec<usize>>());
    assert_eq!(idx, vec![0, 0]);
    let mut empty: Vec<usize> = vec![];
    assert!(increment_multi_index(&mut empty, 3));
}

#[test]
fn outer_product_associativity_with_exact_products() {
    let a = Tensor::rank2(2, [IndexType::Contravariant, IndexType::Covariant], vec![1.0, -2.0, 3.0, 4.0]);
    let b = Tensor::vector(2, vec![5.0, -6.0], IndexType::Covariant);
    let c = Tensor::vector(2, vec![7.0, 8.0], IndexType::Contravariant);
    let ab_c = a.outer_product_with(&b, times).outer_product_with(&c, times);
    let a_bc = a.outer_product_with(&b.outer_product_with(&c, times), times);
    assert_eq!(ab_c.index_types, a_bc.index_types);
    assert_eq!(ab_c.data, a_bc.data);
    assert_eq!(ab_c.rank(), 4);
    // component (1, 0, 1, 0) = 3 * -6 * 7
    assert_eq!(ab_c.get4(1, 0, 1, 0), -126.0);
}

#[test]
fn component_count_is_dim_to_the_rank() {
    assert_eq!(component_count(3, 4), 81);
    assert_eq!(component_count(0, 0), 1);
    assert_eq!(component_count(0, 2), 0);
    assert_eq!(component_count(7, 1), 7);
}

#[test]
fn index_type_lists_are_copied_and_compared() {
    let a = vec![IndexType::Contravariant, IndexType::Covariant];
    let b = copy_types(&a);
    assert_eq!(a, b);
    assert!(same_types(&a, &b));
    assert!(!same_types(&a, &vec![IndexType::Contravariant]));
    assert!(!same_types(&a, &vec![IndexType::Covariant, IndexType::Covariant]));
}

#[test]
fn exhaustive_index_checks_find_the_failing_tuple() {
    assert!(all_pairs(3, |i: usize, j: usize| i + j < 5));
    assert!(!all_pairs(3, |i: usize, j: usize| !(i == 2 && j == 1)));
    assert!(all_triples(2, |i: usize, j: usize, k: usize| i + j + k <= 3));
    assert!(!all_triples(2, |i: usize, j: usize, k: usize| i + j + k < 3));
    assert!(all_quads(0, |_: usize, _: usize, _: usize, _: usize| false));
    assert!(!all_quads(2, |i: usize, j: usize, k: usize, l: usize| i * j * k * l == 0));
    assert!(all_components(&vec![1.0, 2.0], |x: f64| x > 0.0));
    assert!(!all_components(&vec![1.0, -2.0], |x: f64| x > 0.0));
}

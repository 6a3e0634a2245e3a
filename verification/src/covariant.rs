//! Covariant derivative, parallel transport, and geodesic equation.
use vstd::prelude::*;
use vstd::arithmetic::div_mod::{lemma_fundamental_div_mod, lemma_fundamental_div_mod_converse};
use crate::checks::{all_components, holds_at};
use crate::christoffel::{lemma_pos3_bound, pos3, ChristoffelSymbols};
use crate::riemann::at3;
use crate::fold::{fold_trace, folds_to, lemma_fold_trace_push};
use crate::layout::{
    constant_index, in_bounds, increment_multi_index, lemma_flat_bound, lemma_flat_unflat,
    lemma_flat_zeros, lemma_num_components_positive, lemma_unflat_flat, num_components, unflat,
};
use crate::metric::lemma_matrix_position;
use crate::tensor::{component_count, lemma_num_components_small, IndexType, Tensor};

verus! {

/// Γ^i_{jk}, read from the second-kind symbols by their own row length.
pub open spec fn christoffel_at<T>(gamma: &ChristoffelSymbols<T>, i: int, j: int, k: int) -> T {
    gamma.second_kind.data@[pos3(gamma.second_kind.dim as nat, i as nat, j as nat, k as nat)]
}

/// The Christoffel symbols can be read at every (i, j, k) below their
/// dimension (which asks nothing of them in dimension zero).
pub open spec fn christoffel_readable<T>(gamma: &ChristoffelSymbols<T>) -> bool {
    gamma.dim == 0 || {
        &&& gamma.second_kind.index_types@.len() == 3
        &&& pos3(
            gamma.second_kind.dim as nat,
            (gamma.dim - 1) as nat,
            (gamma.dim - 1) as nat,
            (gamma.dim - 1) as nat,
        ) < gamma.second_kind.data@.len()
    }
}

/// A rank-2 tensor can be read at every (i, j) below `dim`, by its own row
/// length (which asks nothing of it when `dim` is zero).
pub open spec fn matrix_readable<T>(t: &Tensor<T>, dim: nat) -> bool {
    dim == 0 || (t.index_types@.len() == 2 && (dim - 1) * t.dim + (dim - 1) < t.data@.len())
}

/// The component (i, j) of a rank-2 tensor, by its own row length.
pub open spec fn matrix_at<T>(t: &Tensor<T>, i: int, j: int) -> T {
    t.data@[i * t.dim + j]
}

/// The pairs (Γ^i_{jk}, V^j), j in order, added to ∂V^i/∂x^k.
pub open spec fn vector_connection_terms<T>(
    gamma: &ChristoffelSymbols<T>,
    v: &Tensor<T>,
    i: int,
    k: int,
) -> Seq<(T, T)> {
    Seq::new(gamma.dim as nat, |j: int| (christoffel_at(gamma, i, j, k), v.data@[j]))
}

/// The pairs (Γ^j_{ik}, ω_j), j in order, subtracted from ∂ω_i/∂x^k.
pub open spec fn covector_connection_terms<T>(
    gamma: &ChristoffelSymbols<T>,
    omega: &Tensor<T>,
    i: int,
    k: int,
) -> Seq<(T, T)> {
    Seq::new(gamma.dim as nat, |j: int| (christoffel_at(gamma, j, i, k), omega.data@[j]))
}

/// Reads Γ^i_{jk}.
fn christoffel_value<T: Copy>(gamma: &ChristoffelSymbols<T>, i: usize, j: usize, k: usize) -> (v: T)
    requires
        christoffel_readable(gamma),
        i < gamma.dim,
        j < gamma.dim,
        k < gamma.dim,
    ensures
        v == christoffel_at(gamma, i as int, j as int, k as int),
{
    proof {
        lemma_pos3_bound(
            gamma.second_kind.dim as nat,
            i as nat,
            j as nat,
            k as nat,
            gamma.dim as nat,
        );
    }
    gamma.get(i, j, k)
}

/// Reads component (i, j) of a rank-2 tensor.
fn matrix_value<T: Copy>(t: &Tensor<T>, i: usize, j: usize, dim: usize) -> (v: T)
    requires
        matrix_readable(t, dim as nat),
        i < dim,
        j < dim,
    ensures
        v == matrix_at(t, i as int, j as int),
{
    proof {
        lemma_matrix_position(i as nat, j as nat, dim as nat, t.dim as nat);
    }
    t.get2(i, j)
}

/// Folds `step` from `init` over the pairs (Γ at (i, j, k) or (j, i, k),
/// x_j), j in order: the connection sum of a vector or covector component.
fn connection_sum<T: Copy, F: Fn(T, (T, T)) -> T>(
    gamma: &ChristoffelSymbols<T>,
    x: &Tensor<T>,
    i: usize,
    k: usize,
    contravariant: bool,
    init: T,
    step: &F,
) -> (r: T)
    requires
        christoffel_readable(gamma),
        i < gamma.dim,
        k < gamma.dim,
        x.data@.len() >= gamma.dim,
        forall|acc: T, y: (T, T)| call_requires(*step, (acc, y)),
    ensures
        contravariant ==> folds_to(
            *step,
            init,
            vector_connection_terms(gamma, x, i as int, k as int),
            r,
        ),
        !contravariant ==> folds_to(
            *step,
            init,
            covector_connection_terms(gamma, x, i as int, k as int),
            r,
        ),
{
    let dim = gamma.dim;
    let ghost terms = if contravariant {
        vector_connection_terms(gamma, x, i as int, k as int)
    } else {
        covector_connection_terms(gamma, x, i as int, k as int)
    };
    let mut val = init;
    let ghost mut partials: Seq<T> = seq![init];
    proof {
        assert(terms.take(0) =~= Seq::<(T, T)>::empty());
    }
    let mut j: usize = 0;
    while j < dim
        invariant
            j <= dim,
            dim == gamma.dim,
            christoffel_readable(gamma),
            i < dim,
            k < dim,
            x.data@.len() >= dim,
            terms == if contravariant {
                vector_connection_terms(gamma, x, i as int, k as int)
            } else {
                covector_connection_terms(gamma, x, i as int, k as int)
            },
            forall|acc: T, y: (T, T)| call_requires(*step, (acc, y)),
            fold_trace(*step, init, terms.take(j as int), partials),
            partials.last() == val,
        decreases dim - j,
    {
        let g = if contravariant {
            christoffel_value(gamma, i, j, k)
        } else {
            christoffel_value(gamma, j, i, k)
        };
        let xj = x.data[j];
        assert((g, xj) == terms[j as int]);
        val = step(val, (g, xj));
        proof {
            lemma_fold_trace_push(*step, init, terms.take(j as int), partials, (g, xj), val);
            partials = partials.push(val);
            assert(terms.take(j as int).push((g, xj)) =~= terms.take(j + 1));
        }
        j = j + 1;
    }
    assert(terms.take(dim as int) =~= terms);
    val
}

/// Compute the covariant derivative ∇_k T^i = ∂T^i/∂x^k + Γ^i_jk T^j for a
/// contravariant vector field given only by its derivative tensor `dt`
/// (∂T^i/∂x^k at (i, k)). The field values T^j of the connection term are
/// read from the first `dim` entries of `dt`'s own data: component (i, k) is
/// `step` folded from ∂T^i/∂x^k over the pairs (Γ^i_{jk}, dt.data[j]). With
/// vanishing symbols the result is `dt` itself.
pub fn covariant_derivative_vector<T: Copy, F: Fn(T, (T, T)) -> T>(
    gamma: &ChristoffelSymbols<T>,
    dt: &Tensor<T>,
    step: F,
) -> (r: Tensor<T>)
    requires
        dt.index_types@.len() == 2,
        dt.dim == gamma.dim,
        gamma.dim * gamma.dim <= usize::MAX,
        matrix_readable(dt, gamma.dim as nat),
        christoffel_readable(gamma),
        forall|acc: T, x: (T, T)| call_requires(step, (acc, x)),
    ensures
        r.dim == gamma.dim,
        r.index_types@ == seq![IndexType::Contravariant, IndexType::Covariant],
        r.wf(),
        forall|i: int, k: int|
            0 <= i < gamma.dim && 0 <= k < gamma.dim ==> folds_to(
                step,
                matrix_at(dt, i, k),
                vector_connection_terms(gamma, dt, i, k),
                #[trigger] r.data@[i * gamma.dim + k],
            ),
{
    let ghost d = gamma.dim as nat;
    if gamma.dim > 0 {
        assert(dt.data@.len() >= d) by (nonlinear_arith)
            requires
                d > 0,
                dt.dim == d,
                (d - 1) * dt.dim + (d - 1) < dt.data@.len(),
        ;
    }
    rank2_connection_derivative(gamma, dt, dt, true, step)
}

/// Compute the covariant derivative of a vector field V^i,
/// ∇_k V^i = ∂V^i/∂x^k + Γ^i_{jk} V^j: component (i, k), stored at
/// i * dim + k, is `step` folded from ∂V^i/∂x^k over the pairs
/// (Γ^i_{jk}, V^j), which is the formula for `step(s, (g, x)) = s + g * x`.
///
/// * `gamma` - Christoffel symbols
/// * `v` - Vector field V^i (rank-1, contravariant)
/// * `dv` - Partial derivatives ∂V^i/∂x^k (rank-2, [i,k])
pub fn covariant_derivative_with<T: Copy, F: Fn(T, (T, T)) -> T>(
    gamma: &ChristoffelSymbols<T>,
    v: &Tensor<T>,
    dv: &Tensor<T>,
    step: F,
) -> (r: Tensor<T>)
    requires
        v.index_types@.len() == 1,
        v.dim == gamma.dim,
        dv.index_types@.len() == 2,
        dv.dim == gamma.dim,
        gamma.dim * gamma.dim <= usize::MAX,
        v.data@.len() >= gamma.dim,
        matrix_readable(dv, gamma.dim as nat),
        christoffel_readable(gamma),
        forall|acc: T, x: (T, T)| call_requires(step, (acc, x)),
    ensures
        r.dim == gamma.dim,
        r.index_types@ == seq![IndexType::Contravariant, IndexType::Covariant],
        r.wf(),
        forall|i: int, k: int|
            0 <= i < gamma.dim && 0 <= k < gamma.dim ==> folds_to(
                step,
                matrix_at(dv, i, k),
                vector_connection_terms(gamma, v, i, k),
                #[trigger] r.data@[i * gamma.dim + k],
            ),
{
    rank2_connection_derivative(gamma, v, dv, true, step)
}

/// Compute the covariant derivative of a covariant vector (1-form) ω_i,
/// ∇_k ω_i = ∂ω_i/∂x^k - Γ^j_{ik} ω_j: component (i, k), stored at
/// i * dim + k, is `step` folded from ∂ω_i/∂x^k over the pairs
/// (Γ^j_{ik}, ω_j), which is the formula for `step(s, (g, x)) = s - g * x`.
pub fn covariant_derivative_covector_with<T: Copy, F: Fn(T, (T, T)) -> T>(
    gamma: &ChristoffelSymbols<T>,
    omega: &Tensor<T>,
    domega: &Tensor<T>,
    step: F,
) -> (r: Tensor<T>)
    requires
        omega.index_types@.len() == 1,
        domega.index_types@.len() == 2,
        gamma.dim * gamma.dim <= usize::MAX,
        omega.data@.len() >= gamma.dim,
        matrix_readable(domega, gamma.dim as nat),
        christoffel_readable(gamma),
        forall|acc: T, x: (T, T)| call_requires(step, (acc, x)),
    ensures
        r.dim == gamma.dim,
        r.index_types@ == seq![IndexType::Covariant, IndexType::Covariant],
        r.wf(),
        forall|i: int, k: int|
            0 <= i < gamma.dim && 0 <= k < gamma.dim ==> folds_to(
                step,
                matrix_at(domega, i, k),
                covector_connection_terms(gamma, omega, i, k),
                #[trigger] r.data@[i * gamma.dim + k],
            ),
{
    rank2_connection_derivative(gamma, omega, domega, false, step)
}

/// The shared loop of the vector and covector covariant derivatives.
fn rank2_connection_derivative<T: Copy, F: Fn(T, (T, T)) -> T>(
    gamma: &ChristoffelSymbols<T>,
    x: &Tensor<T>,
    dx: &Tensor<T>,
    contravariant: bool,
    step: F,
) -> (r: Tensor<T>)
    requires
        dx.index_types@.len() == 2,
        gamma.dim * gamma.dim <= usize::MAX,
        x.data@.len() >= gamma.dim,
        matrix_readable(dx, gamma.dim as nat),
        christoffel_readable(gamma),
        forall|acc: T, y: (T, T)| call_requires(step, (acc, y)),
    ensures
        r.dim == gamma.dim,
        r.index_types@ == seq![
            if contravariant { IndexType::Contravariant } else { IndexType::Covariant },
            IndexType::Covariant,
        ],
        r.wf(),
        forall|i: int, k: int|
            0 <= i < gamma.dim && 0 <= k < gamma.dim ==> folds_to(
                step,
                matrix_at(dx, i, k),
                if contravariant {
                    vector_connection_terms(gamma, x, i, k)
                } else {
                    covector_connection_terms(gamma, x, i, k)
                },
                #[trigger] r.data@[i * gamma.dim + k],
            ),
{
    let dim = gamma.dim;
    let ghost d = dim as nat;
    let mut types: Vec<IndexType> = Vec::new();
    if contravariant {
        types.push(IndexType::Contravariant);
    } else {
        types.push(IndexType::Covariant);
    }
    types.push(IndexType::Covariant);
    let mut data: Vec<T> = Vec::new();
    let mut i: usize = 0;
    assert(i * dim == 0) by (nonlinear_arith)
        requires
            i == 0,
    ;
    while i < dim
        invariant
            i <= dim,
            d == dim,
            dim == gamma.dim,
            dim * dim <= usize::MAX,
            data@.len() == i * dim,
            x.data@.len() >= dim,
            matrix_readable(dx, d),
            christoffel_readable(gamma),
            forall|acc: T, y: (T, T)| call_requires(step, (acc, y)),
            forall|a: int, k: int|
                0 <= a < i && 0 <= k < dim ==> folds_to(
                    step,
                    matrix_at(dx, a, k),
                    if contravariant {
                        vector_connection_terms(gamma, x, a, k)
                    } else {
                        covector_connection_terms(gamma, x, a, k)
                    },
                    #[trigger] data@[a * dim + k],
                ),
        decreases dim - i,
    {
        assert(i * dim + dim <= dim * dim) by (nonlinear_arith)
            requires
                i < dim,
        ;
        let mut k: usize = 0;
        while k < dim
            invariant
                i < dim,
                k <= dim,
                d == dim,
                dim == gamma.dim,
                i * dim + dim <= dim * dim,
                data@.len() == i * dim + k,
                x.data@.len() >= dim,
                matrix_readable(dx, d),
                christoffel_readable(gamma),
                forall|acc: T, y: (T, T)| call_requires(step, (acc, y)),
                forall|a: int, c: int|
                    0 <= a < i && 0 <= c < dim ==> folds_to(
                        step,
                        matrix_at(dx, a, c),
                        if contravariant {
                            vector_connection_terms(gamma, x, a, c)
                        } else {
                            covector_connection_terms(gamma, x, a, c)
                        },
                        #[trigger] data@[a * dim + c],
                    ),
                forall|c: int|
                    0 <= c < k ==> folds_to(
                        step,
                        matrix_at(dx, i as int, c),
                        if contravariant {
                            vector_connection_terms(gamma, x, i as int, c)
                        } else {
                            covector_connection_terms(gamma, x, i as int, c)
                        },
                        #[trigger] data@[i * dim + c],
                    ),
            decreases dim - k,
        {
            let base = matrix_value(dx, i, k, dim);
            let val = connection_sum(gamma, x, i, k, contravariant, base, &step);
            let ghost before = data@;
            data.push(val);
            proof {
                assert forall|a: int, c: int|
                    0 <= a < i && 0 <= c < dim implies #[trigger] data@[a * dim + c] == before[a * dim + c] by {
                    assert(a * dim + c < i * dim) by (nonlinear_arith)
                        requires
                            a < i,
                            c < dim,
                    ;
                }
            }
            k = k + 1;
        }
        assert(i * dim + dim == (i + 1) * dim) by (nonlinear_arith);
        proof {
            assert forall|a: int, c: int|
                0 <= a < i + 1 && 0 <= c < dim implies folds_to(
                step,
                matrix_at(dx, a, c),
                if contravariant {
                    vector_connection_terms(gamma, x, a, c)
                } else {
                    covector_connection_terms(gamma, x, a, c)
                },
                #[trigger] data@[a * dim + c],
            ) by {
                if a == i {
                    assert(data@[i * dim + c] == data@[a * dim + c]);
                }
            }
        }
        i = i + 1;
    }
    proof {
        lemma_num_components_small(d);
    }
    assert(types@ =~= seq![
        if contravariant { IndexType::Contravariant } else { IndexType::Covariant },
        IndexType::Covariant,
    ]);
    Tensor { dim, index_types: types, data }
}

/// The connection terms of the first index of T^i_j (or T_ij): pairs
/// (Γ^i_{lk}, T^l_j) for a contravariant first index, (Γ^l_{ik}, T_lj) for a
/// covariant one, l in order.
pub open spec fn first_index_terms<T>(
    gamma: &ChristoffelSymbols<T>,
    t: &Tensor<T>,
    contravariant: bool,
    i: int,
    j: int,
    k: int,
) -> Seq<(T, T)> {
    Seq::new(
        gamma.dim as nat,
        |l: int|
            if contravariant {
                (christoffel_at(gamma, i, l, k), matrix_at(t, l, j))
            } else {
                (christoffel_at(gamma, l, i, k), matrix_at(t, l, j))
            },
    )
}

/// The connection terms of the second index of T^i_j (or T^ij): pairs
/// (Γ^l_{jk}, T^i_l) for a covariant second index, (Γ^j_{lk}, T^il) for a
/// contravariant one, l in order.
pub open spec fn second_index_terms<T>(
    gamma: &ChristoffelSymbols<T>,
    t: &Tensor<T>,
    covariant: bool,
    i: int,
    j: int,
    k: int,
) -> Seq<(T, T)> {
    Seq::new(
        gamma.dim as nat,
        |l: int|
            if covariant {
                (christoffel_at(gamma, l, j, k), matrix_at(t, i, l))
            } else {
                (christoffel_at(gamma, j, l, k), matrix_at(t, i, l))
            },
    )
}

/// `when_true` if `c` holds, `when_false` otherwise.
pub open spec fn choose_step<F>(c: bool, when_true: F, when_false: F) -> F {
    if c {
        when_true
    } else {
        when_false
    }
}

/// The component (i, j, k) of ∇_k T: starting from ∂T/∂x^k, the first
/// index's connection terms are folded with `plus` when it is contravariant
/// and `minus` when it is covariant, then the second index's terms with
/// `minus` when it is covariant and `plus` when it is contravariant.
pub open spec fn rank2_derivative_component<T, F: Fn(T, (T, T)) -> T>(
    gamma: &ChristoffelSymbols<T>,
    t: &Tensor<T>,
    dt: &Tensor<T>,
    plus: F,
    minus: F,
    m: Seq<usize>,
    value: T,
) -> bool {
    exists|mid: T|
        #[trigger] folds_to(
            choose_step(upper_first(t), plus, minus),
            at3(dt, m),
            first_index_terms(gamma, t, upper_first(t), m[0] as int, m[1] as int, m[2] as int),
            mid,
        ) && folds_to(
            choose_step(lower_second(t), minus, plus),
            mid,
            second_index_terms(gamma, t, lower_second(t), m[0] as int, m[1] as int, m[2] as int),
            value,
        )
}

/// The first index of `t` is contravariant.
pub open spec fn upper_first<T>(t: &Tensor<T>) -> bool {
    t.index_types@[0] == IndexType::Contravariant
}

/// The second index of `t` is covariant.
pub open spec fn lower_second<T>(t: &Tensor<T>) -> bool {
    t.index_types@[1] == IndexType::Covariant
}

/// Folds `step` from `init` over the connection terms of one index of a
/// rank-2 tensor.
fn index_connection_sum<T: Copy, F: Fn(T, (T, T)) -> T>(
    gamma: &ChristoffelSymbols<T>,
    t: &Tensor<T>,
    first: bool,
    flag: bool,
    i: usize,
    j: usize,
    k: usize,
    init: T,
    step: &F,
) -> (r: T)
    requires
        christoffel_readable(gamma),
        matrix_readable(t, gamma.dim as nat),
        i < gamma.dim,
        j < gamma.dim,
        k < gamma.dim,
        forall|acc: T, y: (T, T)| call_requires(*step, (acc, y)),
    ensures
        first ==> folds_to(
            *step,
            init,
            first_index_terms(gamma, t, flag, i as int, j as int, k as int),
            r,
        ),
        !first ==> folds_to(
            *step,
            init,
            second_index_terms(gamma, t, flag, i as int, j as int, k as int),
            r,
        ),
{
    let dim = gamma.dim;
    let ghost terms = if first {
        first_index_terms(gamma, t, flag, i as int, j as int, k as int)
    } else {
        second_index_terms(gamma, t, flag, i as int, j as int, k as int)
    };
    let mut val = init;
    let ghost mut partials: Seq<T> = seq![init];
    proof {
        assert(terms.take(0) =~= Seq::<(T, T)>::empty());
    }
    let mut l: usize = 0;
    while l < dim
        invariant
            l <= dim,
            dim == gamma.dim,
            christoffel_readable(gamma),
            matrix_readable(t, dim as nat),
            i < dim,
            j < dim,
            k < dim,
            terms == if first {
                first_index_terms(gamma, t, flag, i as int, j as int, k as int)
            } else {
                second_index_terms(gamma, t, flag, i as int, j as int, k as int)
            },
            forall|acc: T, y: (T, T)| call_requires(*step, (acc, y)),
            fold_trace(*step, init, terms.take(l as int), partials),
            partials.last() == val,
        decreases dim - l,
    {
        let (g, x) = if first {
            let g = if flag {
                christoffel_value(gamma, i, l, k)
            } else {
                christoffel_value(gamma, l, i, k)
            };
            (g, matrix_value(t, l, j, dim))
        } else {
            let g = if flag {
                christoffel_value(gamma, l, j, k)
            } else {
                christoffel_value(gamma, j, l, k)
            };
            (g, matrix_value(t, i, l, dim))
        };
        assert((g, x) == terms[l as int]);
        val = step(val, (g, x));
        proof {
            lemma_fold_trace_push(*step, init, terms.take(l as int), partials, (g, x), val);
            partials = partials.push(val);
            assert(terms.take(l as int).push((g, x)) =~= terms.take(l + 1));
        }
        l = l + 1;
    }
    assert(terms.take(dim as int) =~= terms);
    val
}

/// Covariant derivative of a rank-2 tensor T^i_j,
/// ∇_k T^i_j = ∂T^i_j/∂x^k + Γ^i_{lk} T^l_j - Γ^l_{jk} T^i_l: each index
/// adds its connection terms with `plus` if contravariant and with `minus`
/// if covariant (see `rank2_derivative_component`); with
/// `plus(s, (g, x)) = s + g * x` and `minus(s, (g, x)) = s - g * x` this is
/// the formula for every combination of index types. The result keeps the
/// two index types and adds a covariant one.
pub fn covariant_derivative_rank2_with<T: Copy, F: Fn(T, (T, T)) -> T>(
    gamma: &ChristoffelSymbols<T>,
    t: &Tensor<T>,
    dt: &Tensor<T>,
    plus: F,
    minus: F,
) -> (r: Tensor<T>)
    requires
        t.index_types@.len() == 2,
        dt.index_types@.len() == 3,
        num_components(gamma.dim as nat, 3) <= usize::MAX,
        matrix_readable(t, gamma.dim as nat),
        gamma.dim == 0 || pos3(
            dt.dim as nat,
            (gamma.dim - 1) as nat,
            (gamma.dim - 1) as nat,
            (gamma.dim - 1) as nat,
        ) < dt.data@.len(),
        christoffel_readable(gamma),
        forall|acc: T, x: (T, T)| call_requires(plus, (acc, x)),
        forall|acc: T, x: (T, T)| call_requires(minus, (acc, x)),
    ensures
        r.dim == gamma.dim,
        r.index_types@ == seq![t.index_types@[0], t.index_types@[1], IndexType::Covariant],
        r.wf(),
        forall|o: int|
            0 <= o < r.data@.len() ==> rank2_derivative_component(
                gamma,
                t,
                dt,
                plus,
                minus,
                unflat(o as nat, gamma.dim as nat, 3),
                #[trigger] r.data@[o],
            ),
{
    let dim = gamma.dim;
    let ghost d = dim as nat;
    let mut types: Vec<IndexType> = Vec::new();
    types.push(t.index_types[0]);
    types.push(t.index_types[1]);
    types.push(IndexType::Covariant);
    assert(types@ =~= seq![t.index_types@[0], t.index_types@[1], IndexType::Covariant]);
    let first_is_upper = t.index_types[0] == IndexType::Contravariant;
    let second_is_lower = t.index_types[1] == IndexType::Covariant;
    let first_step: &F = if first_is_upper {
        &plus
    } else {
        &minus
    };
    let second_step: &F = if second_is_lower {
        &minus
    } else {
        &plus
    };
    let size = component_count(dim, 3);
    let mut data: Vec<T> = Vec::new();
    if dim > 0 {
        proof {
            lemma_num_components_positive(d, 3);
        }
        let mut idx: Vec<usize> = Vec::new();
        idx.push(0);
        idx.push(0);
        idx.push(0);
        proof {
            assert(idx@ =~= constant_index(3, 0));
            lemma_flat_zeros(3, d);
            lemma_unflat_flat(idx@, d);
        }
        loop
            invariant_except_break
                data@.len() < size,
                idx@ == unflat(data@.len() as nat, d, 3),
            invariant
                d == dim,
                dim == gamma.dim,
                dim > 0,
                size == num_components(d, 3),
                t.index_types@.len() == 2,
                first_is_upper == (t.index_types@[0] == IndexType::Contravariant),
                second_is_lower == (t.index_types@[1] == IndexType::Covariant),
                *first_step == choose_step(first_is_upper, plus, minus),
                *second_step == choose_step(second_is_lower, minus, plus),
                dt.index_types@.len() == 3,
                pos3(dt.dim as nat, (dim - 1) as nat, (dim - 1) as nat, (dim - 1) as nat)
                    < dt.data@.len(),
                matrix_readable(t, d),
                christoffel_readable(gamma),
                idx@.len() == 3,
                in_bounds(idx@, d),
                data@.len() <= size,
                forall|acc: T, x: (T, T)| call_requires(plus, (acc, x)),
                forall|acc: T, x: (T, T)| call_requires(minus, (acc, x)),
                forall|o: int|
                    0 <= o < data@.len() ==> rank2_derivative_component(
                        gamma,
                        t,
                        dt,
                        plus,
                        minus,
                        unflat(o as nat, d, 3),
                        #[trigger] data@[o],
                    ),
            ensures
                data@.len() == size,
                forall|o: int|
                    0 <= o < data@.len() ==> rank2_derivative_component(
                        gamma,
                        t,
                        dt,
                        plus,
                        minus,
                        unflat(o as nat, d, 3),
                        #[trigger] data@[o],
                    ),
            decreases size - data@.len(),
        {
            let ghost o = data@.len() as nat;
            let ghost m = idx@;
            let i = idx[0];
            let j = idx[1];
            let k = idx[2];
            assert(i < dim && j < dim && k < dim);
            proof {
                lemma_pos3_bound(dt.dim as nat, i as nat, j as nat, k as nat, d);
                crate::tensor::lemma_partial_products3(i as nat, j as nat, k as nat, dt.dim as nat);
            }
            let base = dt.get3(i, j, k);
            assert(base == at3(dt, m));
            let mid = index_connection_sum(gamma, t, true, first_is_upper, i, j, k, base, first_step);
            let val = index_connection_sum(gamma, t, false, second_is_lower, i, j, k, mid, second_step);
            data.push(val);
            assert(data@[o as int] == val);
            assert(m[0] as int == i as int && m[1] as int == j as int && m[2] as int == k as int);
            let ghost uf = upper_first(t);
            let ghost ls = lower_second(t);
            assert(uf == first_is_upper && ls == second_is_lower);
            assert(folds_to(
                choose_step(uf, plus, minus),
                at3(dt, m),
                first_index_terms(gamma, t, uf, m[0] as int, m[1] as int, m[2] as int),
                mid,
            ));
            assert(folds_to(
                choose_step(ls, minus, plus),
                mid,
                second_index_terms(gamma, t, ls, m[0] as int, m[1] as int, m[2] as int),
                val,
            ));
            assert(rank2_derivative_component(gamma, t, dt, plus, minus, m, val));
            proof {
                lemma_flat_unflat(o, d, 3);
            }
            let carry = increment_multi_index(&mut idx, dim);
            if carry {
                break;
            }
            proof {
                lemma_unflat_flat(idx@, d);
                lemma_flat_bound(idx@, d);
            }
        }
    } else {
        proof {
            lemma_num_components_small(d);
        }
    }
    Tensor { dim, index_types: types, data }
}

/// The triples (Γ^i_{jk}, v^j, v^k), (j, k) row by row, contracted into the
/// geodesic acceleration of component i.
pub open spec fn geodesic_terms<T>(gamma: &ChristoffelSymbols<T>, velocity: &Tensor<T>, i: int) -> Seq<
    (T, T, T),
> {
    let d = gamma.dim as int;
    Seq::new(
        (gamma.dim * gamma.dim) as nat,
        |o: int| (christoffel_at(gamma, i, o / d, o % d), velocity.data@[o / d], velocity.data@[o % d]),
    )
}

/// Geodesic equation: d²x^i/dλ² + Γ^i_{jk} (dx^j/dλ)(dx^k/dλ) = 0
///
/// Returns the acceleration d²x^i/dλ² given velocity dx^i/dλ: component i
/// is `step` folded from `zero` over `geodesic_terms`, which is
/// -Γ^i_{jk} v^j v^k for `step(a, (g, x, y)) = a - g * x * y`.
pub fn geodesic_acceleration_with<T: Copy, F: Fn(T, (T, T, T)) -> T>(
    gamma: &ChristoffelSymbols<T>,
    velocity: &Tensor<T>,
    zero: T,
    step: F,
) -> (r: Tensor<T>)
    requires
        velocity.index_types@.len() == 1,
        velocity.dim == gamma.dim,
        velocity.data@.len() >= gamma.dim,
        gamma.dim * gamma.dim <= usize::MAX,
        christoffel_readable(gamma),
        forall|acc: T, x: (T, T, T)| call_requires(step, (acc, x)),
    ensures
        r.dim == gamma.dim,
        r.index_types@ == seq![IndexType::Contravariant],
        r.wf(),
        forall|i: int|
            0 <= i < gamma.dim ==> folds_to(
                step,
                zero,
                geodesic_terms(gamma, velocity, i),
                #[trigger] r.data@[i],
            ),
{
    let dim = gamma.dim;
    let ghost d = dim as nat;
    let mut types: Vec<IndexType> = Vec::new();
    types.push(IndexType::Contravariant);
    let mut data: Vec<T> = Vec::new();
    let mut i: usize = 0;
    while i < dim
        invariant
            i <= dim,
            d == dim,
            dim == gamma.dim,
            dim * dim <= usize::MAX,
            data@.len() == i,
            velocity.index_types@.len() == 1,
            velocity.data@.len() >= dim,
            christoffel_readable(gamma),
            forall|acc: T, x: (T, T, T)| call_requires(step, (acc, x)),
            forall|a: int|
                0 <= a < i ==> folds_to(
                    step,
                    zero,
                    geodesic_terms(gamma, velocity, a),
                    #[trigger] data@[a],
                ),
        decreases dim - i,
    {
        let ghost terms = geodesic_terms(gamma, velocity, i as int);
        let mut val = zero;
        let ghost mut partials: Seq<T> = seq![zero];
        proof {
            assert(terms.take(0) =~= Seq::<(T, T, T)>::empty());
        }
        let mut j: usize = 0;
        assert(j * dim == 0) by (nonlinear_arith)
            requires
                j == 0,
        ;
        while j < dim
            invariant
                i < dim,
                j <= dim,
                d == dim,
                dim == gamma.dim,
                dim * dim <= usize::MAX,
                velocity.index_types@.len() == 1,
                velocity.data@.len() >= dim,
                christoffel_readable(gamma),
                terms == geodesic_terms(gamma, velocity, i as int),
                forall|acc: T, x: (T, T, T)| call_requires(step, (acc, x)),
                fold_trace(step, zero, terms.take(j * dim), partials),
                partials.last() == val,
            decreases dim - j,
        {
            assert(j * dim + dim <= dim * dim) by (nonlinear_arith)
                requires
                    j < dim,
            ;
            let mut k: usize = 0;
            while k < dim
                invariant
                    i < dim,
                    j < dim,
                    k <= dim,
                    d == dim,
                    dim == gamma.dim,
                    j * dim + dim <= dim * dim,
                    velocity.index_types@.len() == 1,
                    velocity.data@.len() >= dim,
                    christoffel_readable(gamma),
                    terms == geodesic_terms(gamma, velocity, i as int),
                    forall|acc: T, x: (T, T, T)| call_requires(step, (acc, x)),
                    fold_trace(step, zero, terms.take(j * dim + k), partials),
                    partials.last() == val,
                decreases dim - k,
            {
                proof {
                    lemma_fundamental_div_mod_converse(
                        (j * dim + k) as int,
                        dim as int,
                        j as int,
                        k as int,
                    );
                }
                let g = christoffel_value(gamma, i, j, k);
                let vj = velocity.get1(j);
                let vk = velocity.get1(k);
                let ghost o = j * dim + k;
                assert((g, vj, vk) == terms[o as int]);
                val = step(val, (g, vj, vk));
                proof {
                    lemma_fold_trace_push(step, zero, terms.take(o as int), partials, (g, vj, vk), val);
                    partials = partials.push(val);
                    assert(terms.take(o as int).push((g, vj, vk)) =~= terms.take(o + 1));
                }
                k = k + 1;
            }
            assert(j * dim + dim == (j + 1) * dim) by (nonlinear_arith);
            j = j + 1;
        }
        assert(terms.take(dim * dim) =~= terms);
        data.push(val);
        i = i + 1;
    }
    proof {
        lemma_num_components_small(d);
    }
    assert(types@ =~= seq![IndexType::Contravariant]);
    Tensor { dim, index_types: types, data }
}

/// The geodesic-acceleration component `i` is `a` (folded over
/// `geodesic_terms`) and the test `negligible` answered `r` of it.
pub open spec fn geodesic_component_tested<T, F: Fn(T, (T, T, T)) -> T, N: Fn(T) -> bool>(
    gamma: &ChristoffelSymbols<T>,
    velocity: &Tensor<T>,
    zero: T,
    step: F,
    negligible: N,
    i: int,
    a: T,
    r: bool,
) -> bool {
    folds_to(step, zero, geodesic_terms(gamma, velocity, i), a) && call_ensures(negligible, (a,), r)
}

/// The geodesic-acceleration component `i` passed the test `negligible`.
pub open spec fn geodesic_component_passes<T, F: Fn(T, (T, T, T)) -> T, N: Fn(T) -> bool>(
    gamma: &ChristoffelSymbols<T>,
    velocity: &Tensor<T>,
    zero: T,
    step: F,
    negligible: N,
    i: int,
) -> bool {
    exists|a: T| #[trigger] geodesic_component_tested(gamma, velocity, zero, step, negligible, i, a, true)
}

/// Check if a given velocity vector satisfies the geodesic equation: the
/// acceleration of `geodesic_acceleration_with` is computed and `negligible`
/// is asked of each of its components in order (with `negligible(a) = |a| <
/// tol` this is the tolerance check). True exactly when every component
/// passed; false names a component that failed.
pub fn is_geodesic_with<T: Copy, F: Fn(T, (T, T, T)) -> T, N: Fn(T) -> bool>(
    gamma: &ChristoffelSymbols<T>,
    velocity: &Tensor<T>,
    zero: T,
    step: F,
    negligible: N,
) -> (b: bool)
    requires
        velocity.index_types@.len() == 1,
        velocity.dim == gamma.dim,
        velocity.data@.len() >= gamma.dim,
        gamma.dim * gamma.dim <= usize::MAX,
        christoffel_readable(gamma),
        forall|acc: T, x: (T, T, T)| call_requires(step, (acc, x)),
        forall|x: T| call_requires(negligible, (x,)),
    ensures
        b ==> forall|i: int|
            0 <= i < gamma.dim ==> #[trigger] geodesic_component_passes(
                gamma,
                velocity,
                zero,
                step,
                negligible,
                i,
            ),
        !b ==> exists|i: int, a: T|
            0 <= i < gamma.dim && #[trigger] geodesic_component_tested(
                gamma,
                velocity,
                zero,
                step,
                negligible,
                i,
                a,
                false,
            ),
{
    let accel = geodesic_acceleration_with(gamma, velocity, zero, step);
    proof {
        lemma_num_components_small(gamma.dim as nat);
    }
    let b = all_components(&accel.data, negligible);
    proof {
        if b {
            assert forall|i: int| 0 <= i < gamma.dim implies #[trigger] geodesic_component_passes(
                gamma,
                velocity,
                zero,
                step,
                negligible,
                i,
            ) by {
                assert(holds_at(negligible, accel.data@, i));
                assert(geodesic_component_tested(gamma, velocity, zero, step, negligible, i, accel.data@[i], true));
            }
        } else {
            let p = choose|p: int|
                0 <= p < accel.data@.len() && call_ensures(negligible, (#[trigger] accel.data@[p],), false);
            assert(geodesic_component_tested(gamma, velocity, zero, step, negligible, p, accel.data@[p], false));
        }
    }
    b
}

/// The covariant-derivative component (i, k) of a vector field is `a`
/// (folded from ∂V^i/∂x^k over `vector_connection_terms`) and the test
/// `negligible` answered `r` of it.
pub open spec fn transport_component_tested<T, F: Fn(T, (T, T)) -> T, N: Fn(T) -> bool>(
    gamma: &ChristoffelSymbols<T>,
    v: &Tensor<T>,
    dv: &Tensor<T>,
    step: F,
    negligible: N,
    i: int,
    k: int,
    a: T,
    r: bool,
) -> bool {
    folds_to(step, matrix_at(dv, i, k), vector_connection_terms(gamma, v, i, k), a) && call_ensures(
        negligible,
        (a,),
        r,
    )
}

/// The covariant-derivative component (i, k) passed the test `negligible`.
pub open spec fn transport_component_passes<T, F: Fn(T, (T, T)) -> T, N: Fn(T) -> bool>(
    gamma: &ChristoffelSymbols<T>,
    v: &Tensor<T>,
    dv: &Tensor<T>,
    step: F,
    negligible: N,
    i: int,
    k: int,
) -> bool {
    exists|a: T| #[trigger] transport_component_tested(gamma, v, dv, step, negligible, i, k, a, true)
}

/// Parallel transport condition ∇_V V = 0: the covariant derivative of
/// `covariant_derivative_with` is computed and `negligible` is asked of each
/// of its components in storage order. True exactly when every component
/// passed; false names a component (i, k) that failed.
pub fn parallel_transport_condition_with<T: Copy, F: Fn(T, (T, T)) -> T, N: Fn(T) -> bool>(
    gamma: &ChristoffelSymbols<T>,
    v: &Tensor<T>,
    dv: &Tensor<T>,
    step: F,
    negligible: N,
) -> (b: bool)
    requires
        v.index_types@.len() == 1,
        v.dim == gamma.dim,
        dv.index_types@.len() == 2,
        dv.dim == gamma.dim,
        gamma.dim * gamma.dim <= usize::MAX,
        v.data@.len() >= gamma.dim,
        matrix_readable(dv, gamma.dim as nat),
        christoffel_readable(gamma),
        forall|acc: T, x: (T, T)| call_requires(step, (acc, x)),
        forall|x: T| call_requires(negligible, (x,)),
    ensures
        b ==> forall|i: int, k: int|
            0 <= i < gamma.dim && 0 <= k < gamma.dim ==> #[trigger] transport_component_passes(
                gamma,
                v,
                dv,
                step,
                negligible,
                i,
                k,
            ),
        !b ==> exists|i: int, k: int, a: T|
            0 <= i < gamma.dim && 0 <= k < gamma.dim && #[trigger] transport_component_tested(
                gamma,
                v,
                dv,
                step,
                negligible,
                i,
                k,
                a,
                false,
            ),
{
    let cov = covariant_derivative_with(gamma, v, dv, step);
    let ghost d = gamma.dim as int;
    proof {
        lemma_num_components_small(gamma.dim as nat);
    }
    let b = all_components(&cov.data, negligible);
    proof {
        if b {
            assert forall|i: int, k: int|
                0 <= i < gamma.dim && 0 <= k < gamma.dim implies #[trigger] transport_component_passes(
                gamma,
                v,
                dv,
                step,
                negligible,
                i,
                k,
            ) by {
                lemma_matrix_position(i as nat, k as nat, d as nat, d as nat);
                assert((d - 1) * d + (d - 1) < d * d) by (nonlinear_arith)
                    requires
                        d > 0,
                ;
                assert(holds_at(negligible, cov.data@, i * d + k));
                assert(transport_component_tested(gamma, v, dv, step, negligible, i, k, cov.data@[i * d + k], true));
            }
        } else {
            let p = choose|p: int|
                0 <= p < cov.data@.len() && call_ensures(negligible, (#[trigger] cov.data@[p],), false);
            let i = p / d;
            let k = p % d;
            assert(cov.index_types@.len() == 2);
            assert(cov.data@.len() == num_components(gamma.dim as nat, 2));
            assert(cov.data@.len() == d * d) by (nonlinear_arith)
                requires
                    cov.data@.len() == (gamma.dim as nat) * (gamma.dim as nat),
                    d == gamma.dim as int,
            ;
            assert(d > 0) by (nonlinear_arith)
                requires
                    p < d * d,
                    0 <= p,
                    d >= 0,
            ;
            lemma_fundamental_div_mod(p, d);
            assert(0 <= i < d) by (nonlinear_arith)
                requires
                    0 <= p < d * d,
                    d > 0,
                    i == p / d,
            ;
            assert(i * d + k == p) by (nonlinear_arith)
                requires
                    p == d * (p / d) + p % d,
                    i == p / d,
                    k == p % d,
            ;
            assert(transport_component_tested(gamma, v, dv, step, negligible, i, k, cov.data@[p], false));
        }
    }
    b
}

} // verus!

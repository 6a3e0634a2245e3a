//! Lie derivative of scalar, vector, and tensor fields.
use vstd::prelude::*;
use crate::christoffel::{lemma_pos3_bound, pos3, triple_readable};
use crate::covariant::{matrix_at, matrix_readable};
use crate::fold::{fold_trace, folds_to, lemma_fold_trace_push};
use crate::metric::lemma_matrix_position;
use crate::riemann::at3;
use crate::tensor::{lemma_num_components_small, IndexType, Tensor};

verus! {

/// Which formula the Lie derivative of a tensor with these index types uses.
#[derive(Clone, Copy, Debug, PartialEq, Eq, Structural)]
pub enum LieDerivativeKind {
    /// Rank 0: the directional derivative V^i ∂f/∂x^i.
    Scalar,
    /// One contravariant index: the bracket [V, W].
    Vector,
    /// One covariant index.
    Covector,
    /// Two covariant indices.
    CovariantRank2,
}

/// The formula for a tensor with these index types, if there is one: mixed
/// rank-2 tensors and tensors of rank above 2 have none.
pub open spec fn lie_kind_spec(types: Seq<IndexType>) -> Option<LieDerivativeKind> {
    if types.len() == 0 {
        Some(LieDerivativeKind::Scalar)
    } else if types.len() == 1 {
        if types[0] == IndexType::Contravariant {
            Some(LieDerivativeKind::Vector)
        } else {
            Some(LieDerivativeKind::Covector)
        }
    } else if types.len() == 2 && types[0] == IndexType::Covariant && types[1]
        == IndexType::Covariant {
        Some(LieDerivativeKind::CovariantRank2)
    } else {
        None
    }
}

/// General Lie derivative dispatch based on tensor rank: which formula
/// applies to a tensor with these index types.
pub fn lie_derivative_kind(index_types: &Vec<IndexType>) -> (k: Option<LieDerivativeKind>)
    ensures
        k == lie_kind_spec(index_types@),
{
    match index_types.len() {
        0 => Some(LieDerivativeKind::Scalar),
        1 => {
            if index_types[0] == IndexType::Contravariant {
                Some(LieDerivativeKind::Vector)
            } else {
                Some(LieDerivativeKind::Covector)
            }
        },
        2 => {
            if index_types[0] == IndexType::Covariant && index_types[1] == IndexType::Covariant {
                Some(LieDerivativeKind::CovariantRank2)
            } else {
                None
            }
        },
        _ => None,
    }
}

/// The pairs (V^i, ∂f/∂x^i), i in order.
pub open spec fn scalar_lie_terms<T>(v: &Tensor<T>, grad_f: &Tensor<T>) -> Seq<(T, T)> {
    Seq::new(v.dim as nat, |i: int| (v.data@[i], grad_f.data@[i]))
}

/// Compute the Lie derivative of a scalar field f along vector field V,
/// L_V f = V^i ∂f/∂x^i = V · ∇f: `step` folded from `zero` over the pairs
/// (V^i, ∂f/∂x^i), which is the sum for `step(s, (a, b)) = s + a * b`.
///
/// * `v` - Vector field V^i (contravariant)
/// * `grad_f` - Gradient ∂f/∂x^i (covariant)
pub fn lie_derivative_scalar_with<T: Copy, F: Fn(T, (T, T)) -> T>(
    v: &Tensor<T>,
    grad_f: &Tensor<T>,
    zero: T,
    step: F,
) -> (r: T)
    requires
        v.index_types@.len() == 1,
        grad_f.index_types@.len() == 1,
        v.dim == grad_f.dim,
        v.data@.len() >= v.dim,
        grad_f.data@.len() >= v.dim,
        forall|acc: T, x: (T, T)| call_requires(step, (acc, x)),
    ensures
        folds_to(step, zero, scalar_lie_terms(v, grad_f), r),
{
    let ghost terms = scalar_lie_terms(v, grad_f);
    let mut result = zero;
    let ghost mut partials: Seq<T> = seq![zero];
    proof {
        assert(terms.take(0) =~= Seq::<(T, T)>::empty());
    }
    let mut i: usize = 0;
    while i < v.dim
        invariant
            i <= v.dim,
            v.index_types@.len() == 1,
            grad_f.index_types@.len() == 1,
            v.data@.len() >= v.dim,
            grad_f.data@.len() >= v.dim,
            terms == scalar_lie_terms(v, grad_f),
            forall|acc: T, x: (T, T)| call_requires(step, (acc, x)),
            fold_trace(step, zero, terms.take(i as int), partials),
            partials.last() == result,
        decreases v.dim - i,
    {
        let a = v.get1(i);
        let b = grad_f.get1(i);
        assert((a, b) == terms[i as int]);
        result = step(result, (a, b));
        proof {
            lemma_fold_trace_push(step, zero, terms.take(i as int), partials, (a, b), result);
            partials = partials.push(result);
            assert(terms.take(i as int).push((a, b)) =~= terms.take(i + 1));
        }
        i = i + 1;
    }
    assert(terms.take(v.dim as int) =~= terms);
    result
}

/// The quadruples (V^j, ∂W^i/∂x^j, W^j, ∂V^i/∂x^j), j in order.
pub open spec fn vector_lie_terms<T>(
    v: &Tensor<T>,
    w: &Tensor<T>,
    dw: &Tensor<T>,
    dv: &Tensor<T>,
    i: int,
) -> Seq<(T, T, T, T)> {
    Seq::new(
        v.dim as nat,
        |j: int| (v.data@[j], matrix_at(dw, i, j), w.data@[j], matrix_at(dv, i, j)),
    )
}

/// The quadruples (V^j, ∂ω_i/∂x^j, ω_j, ∂V^j/∂x^i), j in order.
pub open spec fn covector_lie_terms<T>(
    v: &Tensor<T>,
    omega: &Tensor<T>,
    domega: &Tensor<T>,
    dv: &Tensor<T>,
    i: int,
) -> Seq<(T, T, T, T)> {
    Seq::new(
        v.dim as nat,
        |j: int| (v.data@[j], matrix_at(domega, i, j), omega.data@[j], matrix_at(dv, j, i)),
    )
}

/// Folds `step` from `zero` over the quadruples of component `i`.
fn lie_component<T: Copy, F: Fn(T, (T, T, T, T)) -> T>(
    v: &Tensor<T>,
    x: &Tensor<T>,
    dx: &Tensor<T>,
    dv: &Tensor<T>,
    i: usize,
    vector: bool,
    zero: T,
    step: &F,
) -> (r: T)
    requires
        i < v.dim,
        v.index_types@.len() == 1,
        x.index_types@.len() == 1,
        v.data@.len() >= v.dim,
        x.data@.len() >= v.dim,
        matrix_readable(dx, v.dim as nat),
        matrix_readable(dv, v.dim as nat),
        forall|acc: T, y: (T, T, T, T)| call_requires(*step, (acc, y)),
    ensures
        vector ==> folds_to(*step, zero, vector_lie_terms(v, x, dx, dv, i as int), r),
        !vector ==> folds_to(*step, zero, covector_lie_terms(v, x, dx, dv, i as int), r),
{
    let dim = v.dim;
    let ghost terms = if vector {
        vector_lie_terms(v, x, dx, dv, i as int)
    } else {
        covector_lie_terms(v, x, dx, dv, i as int)
    };
    let mut val = zero;
    let ghost mut partials: Seq<T> = seq![zero];
    proof {
        assert(terms.take(0) =~= Seq::<(T, T, T, T)>::empty());
    }
    let mut j: usize = 0;
    while j < dim
        invariant
            j <= dim,
            dim == v.dim,
            i < dim,
            v.index_types@.len() == 1,
            x.index_types@.len() == 1,
            v.data@.len() >= dim,
            x.data@.len() >= dim,
            matrix_readable(dx, dim as nat),
            matrix_readable(dv, dim as nat),
            terms == if vector {
                vector_lie_terms(v, x, dx, dv, i as int)
            } else {
                covector_lie_terms(v, x, dx, dv, i as int)
            },
            forall|acc: T, y: (T, T, T, T)| call_requires(*step, (acc, y)),
            fold_trace(*step, zero, terms.take(j as int), partials),
            partials.last() == val,
        decreases dim - j,
    {
        proof {
            lemma_matrix_position(i as nat, j as nat, dim as nat, dx.dim as nat);
            lemma_matrix_position(i as nat, j as nat, dim as nat, dv.dim as nat);
            lemma_matrix_position(j as nat, i as nat, dim as nat, dv.dim as nat);
        }
        let vj = v.get1(j);
        let dxij = dx.get2(i, j);
        let xj = x.get1(j);
        let dvx = if vector {
            dv.get2(i, j)
        } else {
            dv.get2(j, i)
        };
        assert((vj, dxij, xj, dvx) == terms[j as int]);
        val = step(val, (vj, dxij, xj, dvx));
        proof {
            lemma_fold_trace_push(
                *step,
                zero,
                terms.take(j as int),
                partials,
                (vj, dxij, xj, dvx),
                val,
            );
            partials = partials.push(val);
            assert(terms.take(j as int).push((vj, dxij, xj, dvx)) =~= terms.take(j + 1));
        }
        j = j + 1;
    }
    assert(terms.take(dim as int) =~= terms);
    val
}

/// The shared loop of the vector and covector Lie derivatives.
fn rank1_lie_derivative<T: Copy, F: Fn(T, (T, T, T, T)) -> T>(
    v: &Tensor<T>,
    x: &Tensor<T>,
    dx: &Tensor<T>,
    dv: &Tensor<T>,
    vector: bool,
    zero: T,
    step: F,
) -> (r: Tensor<T>)
    requires
        v.dim > 0 ==> v.index_types@.len() == 1,
        v.dim > 0 ==> x.index_types@.len() == 1,
        v.data@.len() >= v.dim,
        x.data@.len() >= v.dim,
        matrix_readable(dx, v.dim as nat),
        matrix_readable(dv, v.dim as nat),
        forall|acc: T, y: (T, T, T, T)| call_requires(step, (acc, y)),
    ensures
        r.dim == v.dim,
        r.index_types@ == seq![
            if vector { IndexType::Contravariant } else { IndexType::Covariant },
        ],
        r.wf(),
        forall|i: int|
            0 <= i < v.dim ==> (vector ==> folds_to(
                step,
                zero,
                vector_lie_terms(v, x, dx, dv, i),
                #[trigger] r.data@[i],
            )) && (!vector ==> folds_to(
                step,
                zero,
                covector_lie_terms(v, x, dx, dv, i),
                r.data@[i],
            )),
{
    let dim = v.dim;
    let mut types: Vec<IndexType> = Vec::new();
    if vector {
        types.push(IndexType::Contravariant);
    } else {
        types.push(IndexType::Covariant);
    }
    let mut data: Vec<T> = Vec::new();
    let mut i: usize = 0;
    while i < dim
        invariant
            i <= dim,
            dim == v.dim,
            data@.len() == i,
            v.dim > 0 ==> v.index_types@.len() == 1,
            v.dim > 0 ==> x.index_types@.len() == 1,
            v.data@.len() >= dim,
            x.data@.len() >= dim,
            matrix_readable(dx, dim as nat),
            matrix_readable(dv, dim as nat),
            forall|acc: T, y: (T, T, T, T)| call_requires(step, (acc, y)),
            forall|a: int|
                0 <= a < i ==> (vector ==> folds_to(
                    step,
                    zero,
                    vector_lie_terms(v, x, dx, dv, a),
                    #[trigger] data@[a],
                )) && (!vector ==> folds_to(
                    step,
                    zero,
                    covector_lie_terms(v, x, dx, dv, a),
                    data@[a],
                )),
        decreases dim - i,
    {
        let val = lie_component(v, x, dx, dv, i, vector, zero, &step);
        data.push(val);
        i = i + 1;
    }
    proof {
        lemma_num_components_small(dim as nat);
    }
    assert(types@ =~= seq![
        if vector { IndexType::Contravariant } else { IndexType::Covariant },
    ]);
    Tensor { dim, index_types: types, data }
}

/// Compute the Lie derivative of a vector field W along vector field V,
/// (L_V W)^i = V^j ∂W^i/∂x^j - W^j ∂V^i/∂x^j: component i is `step` folded
/// from `zero` over the quadruples (V^j, ∂W^i/∂x^j, W^j, ∂V^i/∂x^j), which is
/// the formula for `step(s, (a, b, c, e)) = s + (a * b - c * e)`.
///
/// * `v` - Vector field V^i (contravariant)
/// * `w` - Vector field W^i (contravariant)
/// * `dw` - ∂W^i/∂x^j (rank-2)
/// * `dv` - ∂V^i/∂x^j (rank-2)
pub fn lie_derivative_vector_with<T: Copy, F: Fn(T, (T, T, T, T)) -> T>(
    v: &Tensor<T>,
    w: &Tensor<T>,
    dw: &Tensor<T>,
    dv: &Tensor<T>,
    zero: T,
    step: F,
) -> (r: Tensor<T>)
    requires
        w.dim == v.dim,
        dw.dim == v.dim,
        dv.dim == v.dim,
        v.dim > 0 ==> v.index_types@.len() == 1,
        v.dim > 0 ==> w.index_types@.len() == 1,
        v.data@.len() >= v.dim,
        w.data@.len() >= v.dim,
        matrix_readable(dw, v.dim as nat),
        matrix_readable(dv, v.dim as nat),
        forall|acc: T, y: (T, T, T, T)| call_requires(step, (acc, y)),
    ensures
        r.dim == v.dim,
        r.index_types@ == seq![IndexType::Contravariant],
        r.wf(),
        forall|i: int|
            0 <= i < v.dim ==> folds_to(
                step,
                zero,
                vector_lie_terms(v, w, dw, dv, i),
                #[trigger] r.data@[i],
            ),
{
    rank1_lie_derivative(v, w, dw, dv, true, zero, step)
}

/// Compute the Lie derivative of a covariant tensor (1-form) ω along vector
/// field V, (L_V ω)_i = V^j ∂ω_i/∂x^j + ω_j ∂V^j/∂x^i: component i is `step`
/// folded from `zero` over the quadruples (V^j, ∂ω_i/∂x^j, ω_j, ∂V^j/∂x^i),
/// which is the formula for `step(s, (a, b, c, e)) = s + (a * b + c * e)`.
///
/// * `v` - Vector field V^i (contravariant)
/// * `omega` - 1-form ω_i (covariant)
/// * `domega` - ∂ω_i/∂x^j (rank-2)
/// * `dv` - ∂V^j/∂x^i (rank-2)
pub fn lie_derivative_covector_with<T: Copy, F: Fn(T, (T, T, T, T)) -> T>(
    v: &Tensor<T>,
    omega: &Tensor<T>,
    domega: &Tensor<T>,
    dv: &Tensor<T>,
    zero: T,
    step: F,
) -> (r: Tensor<T>)
    requires
        v.dim > 0 ==> v.index_types@.len() == 1,
        v.dim > 0 ==> omega.index_types@.len() == 1,
        v.data@.len() >= v.dim,
        omega.data@.len() >= v.dim,
        matrix_readable(domega, v.dim as nat),
        matrix_readable(dv, v.dim as nat),
        forall|acc: T, y: (T, T, T, T)| call_requires(step, (acc, y)),
    ensures
        r.dim == v.dim,
        r.index_types@ == seq![IndexType::Covariant],
        r.wf(),
        forall|i: int|
            0 <= i < v.dim ==> folds_to(
                step,
                zero,
                covector_lie_terms(v, omega, domega, dv, i),
                #[trigger] r.data@[i],
            ),
{
    rank1_lie_derivative(v, omega, domega, dv, false, zero, step)
}

/// The sextuples (V^k, ∂T_{ij}/∂x^k, T_{kj}, ∂V^k/∂x^i, T_{ik}, ∂V^k/∂x^j),
/// k in order.
pub open spec fn rank2_lie_terms<T>(
    v: &Tensor<T>,
    t: &Tensor<T>,
    dt: &Tensor<T>,
    dv: &Tensor<T>,
    i: int,
    j: int,
) -> Seq<(T, T, T, T, T, T)> {
    Seq::new(
        v.dim as nat,
        |k: int|
            (
                v.data@[k],
                at3(dt, seq![i as usize, j as usize, k as usize]),
                matrix_at(t, k, j),
                matrix_at(dv, k, i),
                matrix_at(t, i, k),
                matrix_at(dv, k, j),
            ),
    )
}

/// Folds `step` from `zero` over the sextuples of component (i, j).
fn rank2_lie_component<T: Copy, F: Fn(T, (T, T, T, T, T, T)) -> T>(
    v: &Tensor<T>,
    t: &Tensor<T>,
    dt: &Tensor<T>,
    dv: &Tensor<T>,
    i: usize,
    j: usize,
    zero: T,
    step: &F,
) -> (r: T)
    requires
        i < v.dim,
        j < v.dim,
        v.index_types@.len() == 1,
        v.data@.len() >= v.dim,
        dt.index_types@.len() == 3,
        pos3(dt.dim as nat, (v.dim - 1) as nat, (v.dim - 1) as nat, (v.dim - 1) as nat)
            < dt.data@.len(),
        matrix_readable(t, v.dim as nat),
        matrix_readable(dv, v.dim as nat),
        forall|acc: T, y: (T, T, T, T, T, T)| call_requires(*step, (acc, y)),
    ensures
        folds_to(*step, zero, rank2_lie_terms(v, t, dt, dv, i as int, j as int), r),
{
    let dim = v.dim;
    let ghost terms = rank2_lie_terms(v, t, dt, dv, i as int, j as int);
    let mut val = zero;
    let ghost mut partials: Seq<T> = seq![zero];
    proof {
        assert(terms.take(0) =~= Seq::<(T, T, T, T, T, T)>::empty());
    }
    let mut k: usize = 0;
    while k < dim
        invariant
            k <= dim,
            dim == v.dim,
            i < dim,
            j < dim,
            v.index_types@.len() == 1,
            v.data@.len() >= dim,
            dt.index_types@.len() == 3,
            pos3(dt.dim as nat, (dim - 1) as nat, (dim - 1) as nat, (dim - 1) as nat)
                < dt.data@.len(),
            matrix_readable(t, dim as nat),
            matrix_readable(dv, dim as nat),
            terms == rank2_lie_terms(v, t, dt, dv, i as int, j as int),
            forall|acc: T, y: (T, T, T, T, T, T)| call_requires(*step, (acc, y)),
            fold_trace(*step, zero, terms.take(k as int), partials),
            partials.last() == val,
        decreases dim - k,
    {
        proof {
            lemma_pos3_bound(dt.dim as nat, i as nat, j as nat, k as nat, dim as nat);
            crate::tensor::lemma_partial_products3(i as nat, j as nat, k as nat, dt.dim as nat);
            lemma_matrix_position(k as nat, j as nat, dim as nat, t.dim as nat);
            lemma_matrix_position(k as nat, i as nat, dim as nat, dv.dim as nat);
            lemma_matrix_position(i as nat, k as nat, dim as nat, t.dim as nat);
            lemma_matrix_position(k as nat, j as nat, dim as nat, dv.dim as nat);
        }
        let item = (
            v.get1(k),
            dt.get3(i, j, k),
            t.get2(k, j),
            dv.get2(k, i),
            t.get2(i, k),
            dv.get2(k, j),
        );
        assert(item == terms[k as int]);
        val = step(val, item);
        proof {
            lemma_fold_trace_push(*step, zero, terms.take(k as int), partials, item, val);
            partials = partials.push(val);
            assert(terms.take(k as int).push(item) =~= terms.take(k + 1));
        }
        k = k + 1;
    }
    assert(terms.take(dim as int) =~= terms);
    val
}

/// Compute the Lie derivative of a rank-2 covariant tensor T along vector
/// field V, (L_V T)_{ij} = V^k ∂T_{ij}/∂x^k + T_{kj} ∂V^k/∂x^i + T_{ik} ∂V^k/∂x^j:
/// component (i, j), stored at i * dim + j, is `step` folded from `zero`
/// over `rank2_lie_terms`, which is the formula for
/// `step(s, (a, b, c, e, f, g)) = s + a * b + c * e + f * g`.
pub fn lie_derivative_rank2_covariant_with<T: Copy, F: Fn(T, (T, T, T, T, T, T)) -> T>(
    v: &Tensor<T>,
    t: &Tensor<T>,
    dt: &Tensor<T>,
    dv: &Tensor<T>,
    zero: T,
    step: F,
) -> (r: Tensor<T>)
    requires
        v.dim * v.dim <= usize::MAX,
        v.dim > 0 ==> v.index_types@.len() == 1,
        v.data@.len() >= v.dim,
        triple_readable(dt, v.dim as nat),
        matrix_readable(t, v.dim as nat),
        matrix_readable(dv, v.dim as nat),
        forall|acc: T, y: (T, T, T, T, T, T)| call_requires(step, (acc, y)),
    ensures
        r.dim == v.dim,
        r.index_types@ == seq![IndexType::Covariant, IndexType::Covariant],
        r.wf(),
        forall|i: int, j: int|
            0 <= i < v.dim && 0 <= j < v.dim ==> folds_to(
                step,
                zero,
                rank2_lie_terms(v, t, dt, dv, i, j),
                #[trigger] r.data@[i * v.dim + j],
            ),
{
    let dim = v.dim;
    let mut types: Vec<IndexType> = Vec::new();
    types.push(IndexType::Covariant);
    types.push(IndexType::Covariant);
    let mut data: Vec<T> = Vec::new();
    let mut i: usize = 0;
    assert(i * dim == 0) by (nonlinear_arith)
        requires
            i == 0,
    ;
    while i < dim
        invariant
            i <= dim,
            dim == v.dim,
            dim * dim <= usize::MAX,
            data@.len() == i * dim,
            dim > 0 ==> v.index_types@.len() == 1,
            v.data@.len() >= dim,
            triple_readable(dt, dim as nat),
            matrix_readable(t, dim as nat),
            matrix_readable(dv, dim as nat),
            forall|acc: T, y: (T, T, T, T, T, T)| call_requires(step, (acc, y)),
            forall|a: int, c: int|
                0 <= a < i && 0 <= c < dim ==> folds_to(
                    step,
                    zero,
                    rank2_lie_terms(v, t, dt, dv, a, c),
                    #[trigger] data@[a * dim + c],
                ),
        decreases dim - i,
    {
        assert(i * dim + dim <= dim * dim) by (nonlinear_arith)
            requires
                i < dim,
        ;
        let mut j: usize = 0;
        while j < dim
            invariant
                i < dim,
                j <= dim,
                dim == v.dim,
                i * dim + dim <= dim * dim,
                data@.len() == i * dim + j,
                dim > 0 ==> v.index_types@.len() == 1,
                v.data@.len() >= dim,
                triple_readable(dt, dim as nat),
                matrix_readable(t, dim as nat),
                matrix_readable(dv, dim as nat),
                forall|acc: T, y: (T, T, T, T, T, T)| call_requires(step, (acc, y)),
                forall|a: int, c: int|
                    0 <= a < i && 0 <= c < dim ==> folds_to(
                        step,
                        zero,
                        rank2_lie_terms(v, t, dt, dv, a, c),
                        #[trigger] data@[a * dim + c],
                    ),
                forall|c: int|
                    0 <= c < j ==> folds_to(
                        step,
                        zero,
                        rank2_lie_terms(v, t, dt, dv, i as int, c),
                        #[trigger] data@[i * dim + c],
                    ),
            decreases dim - j,
        {
            let val = rank2_lie_component(v, t, dt, dv, i, j, zero, &step);
            let ghost before = data@;
            data.push(val);
            proof {
                assert forall|a: int, c: int|
                    0 <= a < i && 0 <= c < dim implies #[trigger] data@[a * dim + c] == before[a
                    * dim + c] by {
                    assert(a * dim + c < i * dim) by (nonlinear_arith)
                        requires
                            a < i,
                            c < dim,
                    ;
                }
            }
            j = j + 1;
        }
        assert(i * dim + dim == (i + 1) * dim) by (nonlinear_arith);
        proof {
            assert forall|a: int, c: int|
                0 <= a < i + 1 && 0 <= c < dim implies folds_to(
                step,
                zero,
                rank2_lie_terms(v, t, dt, dv, a, c),
                #[trigger] data@[a * dim + c],
            ) by {
                if a == i {
                    assert(data@[i * dim + c] == data@[a * dim + c]);
                }
            }
        }
        i = i + 1;
    }
    proof {
        lemma_num_components_small(dim as nat);
    }
    assert(types@ =~= seq![IndexType::Covariant, IndexType::Covariant]);
    Tensor { dim, index_types: types, data }
}

/// General Lie derivative dispatch based on tensor rank: a scalar f gives
/// the scalar L_V f = V^i ∂f/∂x^i, with `dtensor` as the gradient of f, folded
/// with `scalar_step`; a contravariant vector takes the bracket formula with
/// `vector_step`, a 1-form its formula with `covector_step`, and a tensor
/// with two covariant indices its formula with `rank2_step`. Mixed rank-2
/// tensors and higher ranks have no formula here.
pub fn lie_derivative_with<
    T: Copy,
    S: Fn(T, (T, T)) -> T,
    V: Fn(T, (T, T, T, T)) -> T,
    C: Fn(T, (T, T, T, T)) -> T,
    R: Fn(T, (T, T, T, T, T, T)) -> T,
>(
    v: &Tensor<T>,
    tensor: &Tensor<T>,
    dtensor: &Tensor<T>,
    dv: &Tensor<T>,
    zero: T,
    scalar_step: S,
    vector_step: V,
    covector_step: C,
    rank2_step: R,
) -> (r: Tensor<T>)
    requires
        lie_kind_spec(tensor.index_types@) is Some,
        lie_kind_spec(tensor.index_types@) == Some(LieDerivativeKind::Scalar) || v.dim > 0
            ==> v.index_types@.len() == 1,
        v.data@.len() >= v.dim,
        lie_kind_spec(tensor.index_types@) == Some(LieDerivativeKind::Scalar) ==> {
            &&& dtensor.index_types@.len() == 1
            &&& dtensor.dim == v.dim
            &&& dtensor.data@.len() >= v.dim
        },
        lie_kind_spec(tensor.index_types@) != Some(LieDerivativeKind::Scalar) ==> matrix_readable(
            dv,
            v.dim as nat,
        ),
        tensor.index_types@.len() == 1 ==> tensor.data@.len() >= v.dim && matrix_readable(
            dtensor,
            v.dim as nat,
        ),
        lie_kind_spec(tensor.index_types@) == Some(LieDerivativeKind::Vector) ==> tensor.dim
            == v.dim && dtensor.dim == v.dim && dv.dim == v.dim,
        lie_kind_spec(tensor.index_types@) == Some(LieDerivativeKind::CovariantRank2) ==> {
            &&& v.dim * v.dim <= usize::MAX
            &&& triple_readable(dtensor, v.dim as nat)
            &&& matrix_readable(tensor, v.dim as nat)
        },
        forall|acc: T, y: (T, T)| call_requires(scalar_step, (acc, y)),
        forall|acc: T, y: (T, T, T, T)| call_requires(vector_step, (acc, y)),
        forall|acc: T, y: (T, T, T, T)| call_requires(covector_step, (acc, y)),
        forall|acc: T, y: (T, T, T, T, T, T)| call_requires(rank2_step, (acc, y)),
    ensures
        r.dim == v.dim,
        r.wf(),
        lie_kind_spec(tensor.index_types@) == Some(LieDerivativeKind::Scalar) ==> {
            &&& r.index_types@ == Seq::<IndexType>::empty()
            &&& r.data@.len() == 1
            &&& folds_to(scalar_step, zero, scalar_lie_terms(v, dtensor), r.data@[0])
        },
        lie_kind_spec(tensor.index_types@) == Some(LieDerivativeKind::Vector) ==> {
            &&& r.index_types@ == seq![IndexType::Contravariant]
            &&& forall|i: int|
                0 <= i < v.dim ==> folds_to(
                    vector_step,
                    zero,
                    vector_lie_terms(v, tensor, dtensor, dv, i),
                    #[trigger] r.data@[i],
                )
        },
        lie_kind_spec(tensor.index_types@) == Some(LieDerivativeKind::Covector) ==> {
            &&& r.index_types@ == seq![IndexType::Covariant]
            &&& forall|i: int|
                0 <= i < v.dim ==> folds_to(
                    covector_step,
                    zero,
                    covector_lie_terms(v, tensor, dtensor, dv, i),
                    #[trigger] r.data@[i],
                )
        },
        lie_kind_spec(tensor.index_types@) == Some(LieDerivativeKind::CovariantRank2) ==> {
            &&& r.index_types@ == seq![IndexType::Covariant, IndexType::Covariant]
            &&& forall|i: int, j: int|
                0 <= i < v.dim && 0 <= j < v.dim ==> folds_to(
                    rank2_step,
                    zero,
                    rank2_lie_terms(v, tensor, dtensor, dv, i, j),
                    #[trigger] r.data@[i * v.dim + j],
                )
        },
{
    match lie_derivative_kind(&tensor.index_types) {
        Some(LieDerivativeKind::Scalar) => {
            let value = lie_derivative_scalar_with(v, dtensor, zero, scalar_step);
            Tensor::scalar_with_dim(value, v.dim)
        },
        Some(LieDerivativeKind::Vector) => lie_derivative_vector_with(
            v,
            tensor,
            dtensor,
            dv,
            zero,
            vector_step,
        ),
        Some(LieDerivativeKind::Covector) => lie_derivative_covector_with(
            v,
            tensor,
            dtensor,
            dv,
            zero,
            covector_step,
        ),
        _ => lie_derivative_rank2_covariant_with(v, tensor, dtensor, dv, zero, rank2_step),
    }
}

} // verus!

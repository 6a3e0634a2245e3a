//! Metric tensors (Riemannian and pseudo-Riemannian), and raising and
//! lowering indices with them.
use vstd::prelude::*;
use crate::fold::{fold_trace, folds_to, lemma_fold_trace_push};
use crate::layout::{
    constant_index, in_bounds, increment_multi_index, lemma_flat_bound,
    lemma_flat_unflat, lemma_flat_zeros, lemma_num_components_positive, lemma_unflat_flat,
    num_components, unflat,
};
use crate::checks::{all_pairs, fails2, holds2};
use crate::covariant::{matrix_at, matrix_readable};
use crate::tensor::{component_count, IndexType, Tensor};

verus! {

/// Signature of a metric tensor.
#[derive(Clone, Copy, Debug, PartialEq, Eq, Structural)]
pub enum MetricSignature {
    /// Riemannian (all positive eigenvalues), e.g. sphere
    Riemannian,
    /// Lorentzian/pseudo-Riemannian: (-,+,+,...+), used in GR
    Lorentzian,
    /// General pseudo-Riemannian with (p, q) signature
    PseudoRiemannian { p: usize, q: usize },
}

/// A metric tensor g_ij (always covariant-covariant) with its inverse g^ij.
#[derive(Clone, Debug)]
pub struct MetricTensor<T> {
    pub dim: usize,
    /// g_ij stored as a rank-2 tensor
    pub g: Tensor<T>,
    /// Inverse metric g^ij
    pub g_inv: Tensor<T>,
    /// Signature
    pub signature: MetricSignature,
}

/// Row `i`, column `k` (both below `d`) of a matrix stored with row length
/// `w` lies no further than row `d - 1`, column `d - 1`.
pub proof fn lemma_matrix_position(i: nat, k: nat, d: nat, w: nat)
    requires
        i < d,
        k < d,
    ensures
        i * w + k <= (d - 1) * w + (d - 1),
        i * w <= i * w + k,
{
    assert(i * w <= (d - 1) * w) by (nonlinear_arith)
        requires
            i <= d - 1,
    ;
}

impl<T: Copy> Tensor<T> {
    /// The pairs multiplied and summed into the `o`-th component when index
    /// `pos` is raised or lowered with the matrix `m`: entry `k` pairs
    /// `m[idx[pos], k]` with the component whose index `pos` is `k`.
    pub open spec fn index_change_terms(&self, m: &Tensor<T>, pos: int, o: nat) -> Seq<(T, T)> {
        let idx = unflat(o, self.dim as nat, self.index_types@.len());
        Seq::new(
            self.dim as nat,
            |k: int|
                (
                    m.data@[idx[pos] * m.dim + k],
                    self.component(idx.update(pos, k as usize)),
                ),
        )
    }

    /// Contracts index `pos` with the second index of the matrix `m`,
    /// giving that index the type `new_type`: each component of the result is
    /// `step` folded from `zero` over the pairs of `index_change_terms`.
    pub fn index_change_with<F: Fn(T, (T, T)) -> T>(
        &self,
        m: &Tensor<T>,
        pos: usize,
        new_type: IndexType,
        zero: T,
        step: F,
    ) -> (t: Tensor<T>)
        requires
            pos < self.index_types@.len(),
            self.dim > 0,
            self.data@.len() >= num_components(self.dim as nat, self.index_types@.len()),
            m.index_types@.len() == 2,
            (self.dim - 1) * m.dim + (self.dim - 1) < m.data@.len(),
            forall|acc: T, x: (T, T)| call_requires(step, (acc, x)),
        ensures
            t.dim == self.dim,
            t.index_types@ == self.index_types@.update(pos as int, new_type),
            t.wf(),
            forall|o: int|
                0 <= o < t.data@.len() ==> folds_to(
                    step,
                    zero,
                    self.index_change_terms(m, pos as int, o as nat),
                    #[trigger] t.data@[o],
                ),
    {
        let dim = self.dim;
        let rank = self.rank();
        let ghost d = dim as nat;

        // New index types
        let mut new_types: Vec<IndexType> = Vec::new();
        let mut q: usize = 0;
        while q < rank
            invariant
                q <= rank,
                rank == self.index_types@.len(),
                pos < rank,
                new_types@ =~= self.index_types@.update(pos as int, new_type).take(q as int),
            decreases rank - q,
        {
            if q == pos {
                new_types.push(new_type);
            } else {
                new_types.push(self.index_types[q]);
            }
            q = q + 1;
        }
        assert(new_types@ =~= self.index_types@.update(pos as int, new_type));

        let n_in = self.data.len();
        let new_size = component_count(dim, rank);
        proof {
            lemma_num_components_positive(d, rank as nat);
        }

        let mut out_idx: Vec<usize> = Vec::new();
        while out_idx.len() < rank
            invariant
                out_idx@.len() <= rank,
                forall|p: int| 0 <= p < out_idx@.len() ==> out_idx@[p] == 0,
            decreases rank - out_idx@.len(),
        {
            out_idx.push(0);
        }
        proof {
            assert(out_idx@ =~= constant_index(rank as nat, 0));
            lemma_flat_zeros(rank as nat, d);
            lemma_unflat_flat(out_idx@, d);
        }
        let mut in_idx: Vec<usize> = Vec::new();
        while in_idx.len() < rank
            invariant
                in_idx@.len() <= rank,
            decreases rank - in_idx@.len(),
        {
            in_idx.push(0);
        }
        let mut new_data: Vec<T> = Vec::new();

        loop
            invariant_except_break
                new_data@.len() < new_size,
                out_idx@ == unflat(new_data@.len() as nat, d, rank as nat),
            invariant
                d == dim,
                dim == self.dim,
                dim > 0,
                rank == self.index_types@.len(),
                pos < rank,
                new_size == num_components(d, rank as nat),
                self.data@.len() >= num_components(d, rank as nat),
                m.index_types@.len() == 2,
                (dim - 1) * m.dim + (dim - 1) < m.data@.len(),
                out_idx@.len() == rank,
                in_idx@.len() == rank,
                in_bounds(out_idx@, d),
                new_data@.len() <= new_size,
                forall|acc: T, x: (T, T)| call_requires(step, (acc, x)),
                forall|o: int|
                    0 <= o < new_data@.len() ==> folds_to(
                        step,
                        zero,
                        self.index_change_terms(m, pos as int, o as nat),
                        #[trigger] new_data@[o],
                    ),
            ensures
                new_data@.len() == new_size,
                forall|o: int|
                    0 <= o < new_data@.len() ==> folds_to(
                        step,
                        zero,
                        self.index_change_terms(m, pos as int, o as nat),
                        #[trigger] new_data@[o],
                    ),
            decreases new_size - new_data@.len(),
        {
            let ghost o = new_data@.len() as nat;
            let ghost out = out_idx@;
            let ghost terms = self.index_change_terms(m, pos as int, o);

            // Start from a copy of the output multi-index
            let mut r: usize = 0;
            while r < rank
                invariant
                    r <= rank,
                    in_idx@.len() == rank,
                    out_idx@.len() == rank,
                    forall|p: int| 0 <= p < r ==> in_idx@[p] == out_idx@[p],
                decreases rank - r,
            {
                in_idx.set(r, out_idx[r]);
                r = r + 1;
            }
            let row = out_idx[pos];

            // Sum over the contracted index
            let mut sum = zero;
            let ghost mut partials: Seq<T> = seq![zero];
            proof {
                assert(terms.take(0) =~= Seq::<(T, T)>::empty());
            }
            let mut k: usize = 0;
            while k < dim
                invariant
                    k <= dim,
                    d == dim,
                    dim == self.dim,
                    rank == self.index_types@.len(),
                    pos < rank,
                    out == unflat(o, d, rank as nat),
                    out.len() == rank,
                    in_bounds(out, d),
                    row == out[pos as int],
                    in_idx@.len() == rank,
                    forall|p: int| 0 <= p < rank && p != pos ==> in_idx@[p] == out[p],
                    terms == self.index_change_terms(m, pos as int, o),
                    self.data@.len() >= num_components(d, rank as nat),
                    m.index_types@.len() == 2,
                    (dim - 1) * m.dim + (dim - 1) < m.data@.len(),
                    forall|acc: T, x: (T, T)| call_requires(step, (acc, x)),
                    fold_trace(step, zero, terms.take(k as int), partials),
                    partials.last() == sum,
                decreases dim - k,
            {
                in_idx.set(pos, k);
                let ghost src = out.update(pos as int, k);
                assert(in_idx@ =~= src);
                assert(in_idx@.take(rank as int) =~= in_idx@);
                proof {
                    assert(in_bounds(src, d));
                    lemma_flat_bound(src, d);
                    lemma_matrix_position(row as nat, k as nat, d, m.dim as nat);
                }
                let g = m.get2(row, k);
                let x = self.get_multi(in_idx.as_slice());
                assert((g, x) == terms[k as int]);
                sum = step(sum, (g, x));
                proof {
                    lemma_fold_trace_push(step, zero, terms.take(k as int), partials, (g, x), sum);
                    partials = partials.push(sum);
                    assert(terms.take(k as int).push((g, x)) =~= terms.take(k + 1));
                }
                k = k + 1;
            }
            proof {
                assert(terms.take(dim as int) =~= terms);
            }
            new_data.push(sum);
            assert(new_data@[o as int] == sum);
            assert(folds_to(step, zero, terms, sum));

            proof {
                lemma_flat_unflat(o, d, rank as nat);
            }
            let carry = increment_multi_index(&mut out_idx, dim);
            if carry {
                break;
            }
            proof {
                lemma_unflat_flat(out_idx@, d);
                lemma_flat_bound(out_idx@, d);
            }
        }

        Tensor { dim, index_types: new_types, data: new_data }
    }
}

impl<T: Copy> MetricTensor<T> {
    /// Get g_ij
    pub fn get(&self, i: usize, j: usize) -> (v: T)
        requires
            self.g.index_types@.len() == 2,
            i * self.g.dim + j < self.g.data@.len(),
        ensures
            v == self.g.data@[i * self.g.dim + j],
    {
        self.g.get2(i, j)
    }

    /// Get g^ij (inverse metric)
    pub fn get_inv(&self, i: usize, j: usize) -> (v: T)
        requires
            self.g_inv.index_types@.len() == 2,
            i * self.g_inv.dim + j < self.g_inv.data@.len(),
        ensures
            v == self.g_inv.data@[i * self.g_inv.dim + j],
    {
        self.g_inv.get2(i, j)
    }

    /// Check that g_ij is symmetric: whether `close(g_ij, g_ji)` holds for
    /// every i, j below the dimension (with `close(a, b) = |a - b| <= tol`
    /// this is a tolerance check).
    pub fn is_symmetric_with<F: Fn(T, T) -> bool>(&self, close: F) -> (b: bool)
        requires
            matrix_readable(&self.g, self.dim as nat),
            forall|x: T, y: T| call_requires(close, (x, y)),
        ensures
            b ==> forall|i: int, j: int|
                0 <= i < self.dim && 0 <= j < self.dim ==> call_ensures(
                    close,
                    (#[trigger] matrix_at(&self.g, i, j), matrix_at(&self.g, j, i)),
                    true,
                ),
            !b ==> exists|i: int, j: int|
                0 <= i < self.dim && 0 <= j < self.dim && call_ensures(
                    close,
                    (#[trigger] matrix_at(&self.g, i, j), matrix_at(&self.g, j, i)),
                    false,
                ),
    {
        let dim = self.dim;
        let cl = &close;
        let test = |i: usize, j: usize| -> (r: bool)
            requires
                i < dim,
                j < dim,
                dim == self.dim,
                matrix_readable(&self.g, self.dim as nat),
                forall|x: T, y: T| call_requires(*cl, (x, y)),
            ensures
                call_ensures(
                    *cl,
                    (matrix_at(&self.g, i as int, j as int), matrix_at(&self.g, j as int, i as int)),
                    r,
                ),
            {
                proof {
                    lemma_matrix_position(i as nat, j as nat, dim as nat, self.g.dim as nat);
                    lemma_matrix_position(j as nat, i as nat, dim as nat, self.g.dim as nat);
                }
                cl(self.get(i, j), self.get(j, i))
            };
        let b = all_pairs(dim, test);
        proof {
            if b {
                assert forall|i: int, j: int| 0 <= i < self.dim && 0 <= j < self.dim implies call_ensures(
                    close,
                    (#[trigger] matrix_at(&self.g, i, j), matrix_at(&self.g, j, i)),
                    true,
                ) by {
                    assert(holds2(test, i as usize, j as usize));
                }
            } else {
                let (i, j) = choose|i: usize, j: usize| i < dim && j < dim && #[trigger] fails2(test, i, j);
                assert(call_ensures(close, (matrix_at(&self.g, i as int, j as int), matrix_at(&self.g, j as int, i as int)), false));
            }
        }
        b
    }

    /// Raise an index: each component of the result is `step` folded from
    /// `zero` over the pairs (g^ik, T_..k..) of `index_change_terms`, so
    /// that with `step(s, (g, t)) = s + g * t` it is g^ik T_..k.. summed over k.
    pub fn raise_index_with<F: Fn(T, (T, T)) -> T>(
        &self,
        tensor: &Tensor<T>,
        index_pos: usize,
        zero: T,
        step: F,
    ) -> (t: Tensor<T>)
        requires
            tensor.dim == self.dim,
            index_pos < tensor.index_types@.len(),
            tensor.index_types@[index_pos as int] == IndexType::Covariant,
            self.dim > 0,
            tensor.data@.len() >= num_components(tensor.dim as nat, tensor.index_types@.len()),
            self.g_inv.index_types@.len() == 2,
            (self.dim - 1) * self.g_inv.dim + (self.dim - 1) < self.g_inv.data@.len(),
            forall|acc: T, x: (T, T)| call_requires(step, (acc, x)),
        ensures
            t.dim == self.dim,
            t.index_types@ == tensor.index_types@.update(
                index_pos as int,
                IndexType::Contravariant,
            ),
            t.wf(),
            forall|o: int|
                0 <= o < t.data@.len() ==> folds_to(
                    step,
                    zero,
                    tensor.index_change_terms(&self.g_inv, index_pos as int, o as nat),
                    #[trigger] t.data@[o],
                ),
    {
        tensor.index_change_with(&self.g_inv, index_pos, IndexType::Contravariant, zero, step)
    }

    /// Lower an index: each component of the result is `step` folded from
    /// `zero` over the pairs (g_ik, T^..k..) of `index_change_terms`, so
    /// that with `step(s, (g, t)) = s + g * t` it is g_ik T^..k.. summed over k.
    pub fn lower_index_with<F: Fn(T, (T, T)) -> T>(
        &self,
        tensor: &Tensor<T>,
        index_pos: usize,
        zero: T,
        step: F,
    ) -> (t: Tensor<T>)
        requires
            tensor.dim == self.dim,
            index_pos < tensor.index_types@.len(),
            tensor.index_types@[index_pos as int] == IndexType::Contravariant,
            self.dim > 0,
            tensor.data@.len() >= num_components(tensor.dim as nat, tensor.index_types@.len()),
            self.g.index_types@.len() == 2,
            (self.dim - 1) * self.g.dim + (self.dim - 1) < self.g.data@.len(),
            forall|acc: T, x: (T, T)| call_requires(step, (acc, x)),
        ensures
            t.dim == self.dim,
            t.index_types@ == tensor.index_types@.update(index_pos as int, IndexType::Covariant),
            t.wf(),
            forall|o: int|
                0 <= o < t.data@.len() ==> folds_to(
                    step,
                    zero,
                    tensor.index_change_terms(&self.g, index_pos as int, o as nat),
                    #[trigger] t.data@[o],
                ),
    {
        tensor.index_change_with(&self.g, index_pos, IndexType::Covariant, zero, step)
    }
}

/// Lowering an index that was raised, or raising one that was lowered,
/// gives back the index types it started from.
pub proof fn lemma_raise_lower_index_types(types: Seq<IndexType>, pos: int)
    requires
        0 <= pos < types.len(),
    ensures
        types[pos] == IndexType::Covariant ==> types.update(pos, IndexType::Contravariant).update(
            pos,
            IndexType::Covariant,
        ) == types,
        types[pos] == IndexType::Contravariant ==> types.update(pos, IndexType::Covariant).update(
            pos,
            IndexType::Contravariant,
        ) == types,
{
    assert(types[pos] == IndexType::Covariant ==> types.update(pos, IndexType::Contravariant).update(
        pos,
        IndexType::Covariant,
    ) =~= types);
    assert(types[pos] == IndexType::Contravariant ==> types.update(pos, IndexType::Covariant).update(
        pos,
        IndexType::Contravariant,
    ) =~= types);
}

} // verus!

//! Core tensor type with contravariant and covariant indices.
//!
//! A tensor stores its components in a flat vector in row-major order; the
//! component type is a parameter, so that the index bookkeeping here is
//! independent of the number type that the components are computed in.
use vstd::prelude::*;
use crate::layout::{flat_of, flatten_idx, num_components};

verus! {

/// Whether a tensor index is contravariant (upper) or covariant (lower).
#[derive(Clone, Copy, Debug, PartialEq, Eq, Hash, Structural)]
pub enum IndexType {
    /// Upper index (contravariant)
    Contravariant,
    /// Lower index (covariant)
    Covariant,
}

/// A tensor of arbitrary rank on a manifold of dimension `dim`.
///
/// Internally stored as a flat array indexed in row-major order.
#[derive(Clone, Debug)]
pub struct Tensor<T> {
    /// Dimension of the underlying manifold.
    pub dim: usize,
    /// Index types for each slot (length = rank).
    pub index_types: Vec<IndexType>,
    /// Flat data in row-major order, length = dim^rank.
    pub data: Vec<T>,
}

/// `dim^rank` grows with the rank when the dimension is at least one.
pub proof fn lemma_num_components_monotone(dim: nat, r1: nat, r2: nat)
    requires
        dim >= 1,
        r1 <= r2,
    ensures
        num_components(dim, r1) <= num_components(dim, r2),
    decreases r2,
{
    if r1 < r2 {
        lemma_num_components_monotone(dim, r1, (r2 - 1) as nat);
        let p = num_components(dim, (r2 - 1) as nat);
        assert(p <= p * dim) by (nonlinear_arith)
            requires
                dim >= 1,
        ;
    }
}

/// `dim^rank` for the small ranks that have constructors of their own.
pub proof fn lemma_num_components_small(dim: nat)
    ensures
        num_components(dim, 0) == 1,
        num_components(dim, 1) == dim,
        num_components(dim, 2) == dim * dim,
        num_components(dim, 3) == dim * dim * dim,
        num_components(dim, 4) == dim * dim * dim * dim,
{
    assert(num_components(dim, 0) == 1);
    assert(num_components(dim, 1) == num_components(dim, 0) * dim);
    assert(num_components(dim, 2) == num_components(dim, 1) * dim);
    assert(num_components(dim, 3) == num_components(dim, 2) * dim);
    assert(num_components(dim, 4) == num_components(dim, 3) * dim);
}

/// Computes `dim^rank`, the number of components of a tensor of that shape.
pub fn component_count(dim: usize, rank: usize) -> (size: usize)
    requires
        num_components(dim as nat, rank as nat) <= usize::MAX,
    ensures
        size == num_components(dim as nat, rank as nat),
{
    let mut size: usize = 1;
    let mut r: usize = 0;
    while r < rank
        invariant
            r <= rank,
            size == num_components(dim as nat, r as nat),
            num_components(dim as nat, rank as nat) <= usize::MAX,
        decreases rank - r,
    {
        if dim >= 1 {
            proof {
                lemma_num_components_monotone(dim as nat, (r + 1) as nat, rank as nat);
            }
        } else {
            assert(size * dim == 0) by (nonlinear_arith)
                requires
                    dim == 0,
            ;
        }
        assert(num_components(dim as nat, (r + 1) as nat) == size * dim);
        size = size * dim;
        r = r + 1;
    }
    size
}

impl<T: Copy> Tensor<T> {
    /// The storage holds exactly one component per multi-index.
    pub open spec fn wf(&self) -> bool {
        self.data@.len() == num_components(self.dim as nat, self.index_types@.len())
    }

    /// The component at a multi-index.
    pub open spec fn component(&self, idx: Seq<usize>) -> T {
        self.data@[flat_of(idx, self.dim as nat) as int]
    }

    /// Create a tensor of the given shape with every component equal to `zero`.
    pub fn zeros(dim: usize, index_types: Vec<IndexType>, zero: T) -> (t: Self)
        requires
            index_types@.len() <= u32::MAX,
            num_components(dim as nat, index_types@.len()) <= usize::MAX,
        ensures
            t.dim == dim,
            t.index_types@ == index_types@,
            t.wf(),
            forall|p: int| 0 <= p < t.data@.len() ==> t.data@[p] == zero,
    {
        let rank = index_types.len();
        let size = component_count(dim, rank);
        let mut data: Vec<T> = Vec::new();
        while data.len() < size
            invariant
                data@.len() <= size,
                forall|p: int| 0 <= p < data@.len() ==> data@[p] == zero,
            decreases size - data@.len(),
        {
            data.push(zero);
        }
        Tensor { dim, index_types, data }
    }

    /// Rank (number of indices) of this tensor.
    pub fn rank(&self) -> (r: usize)
        ensures
            r == self.index_types@.len(),
    {
        self.index_types.len()
    }

    /// Create a scalar (rank-0) tensor.
    pub fn scalar(value: T) -> (t: Self)
        ensures
            t.dim == 1,
            t.index_types@ == Seq::<IndexType>::empty(),
            t.data@ == seq![value],
            t.wf(),
    {
        let mut data: Vec<T> = Vec::new();
        data.push(value);
        Tensor { dim: 1, index_types: Vec::new(), data }
    }

    /// Create a rank-0 scalar tensor on a manifold of dimension `dim`.
    pub fn scalar_with_dim(value: T, dim: usize) -> (t: Self)
        ensures
            t.dim == dim,
            t.index_types@ == Seq::<IndexType>::empty(),
            t.data@ == seq![value],
            t.wf(),
    {
        let mut data: Vec<T> = Vec::new();
        data.push(value);
        Tensor { dim, index_types: Vec::new(), data }
    }

    /// Create a rank-1 vector with given index type.
    pub fn vector(dim: usize, data: Vec<T>, index_type: IndexType) -> (t: Self)
        requires
            data@.len() == dim,
        ensures
            t.dim == dim,
            t.index_types@ == seq![index_type],
            t.data@ == data@,
            t.wf(),
    {
        let mut index_types: Vec<IndexType> = Vec::new();
        index_types.push(index_type);
        proof {
            lemma_num_components_small(dim as nat);
        }
        Tensor { dim, index_types, data }
    }

    /// Create a rank-2 tensor from a flat row-major vector.
    pub fn rank2(dim: usize, index_types: [IndexType; 2], data: Vec<T>) -> (t: Self)
        requires
            dim * dim <= usize::MAX,
            data@.len() == dim * dim,
        ensures
            t.dim == dim,
            t.index_types@ == index_types@,
            t.data@ == data@,
            t.wf(),
    {
        let mut types: Vec<IndexType> = Vec::new();
        types.push(index_types[0]);
        types.push(index_types[1]);
        assert(types@ =~= index_types@);
        proof {
            lemma_num_components_small(dim as nat);
        }
        Tensor { dim, index_types: types, data }
    }

    /// Create a rank-4 tensor.
    pub fn rank4(dim: usize, index_types: [IndexType; 4], data: Vec<T>) -> (t: Self)
        requires
            dim * dim * dim * dim <= usize::MAX,
            data@.len() == dim * dim * dim * dim,
        ensures
            t.dim == dim,
            t.index_types@ == index_types@,
            t.data@ == data@,
            t.wf(),
    {
        let mut types: Vec<IndexType> = Vec::new();
        types.push(index_types[0]);
        types.push(index_types[1]);
        types.push(index_types[2]);
        types.push(index_types[3]);
        assert(types@ =~= index_types@);
        proof {
            lemma_num_components_small(dim as nat);
        }
        Tensor { dim, index_types: types, data }
    }

    /// Index into a rank-1 tensor.
    pub fn get1(&self, i: usize) -> (v: T)
        requires
            self.index_types@.len() == 1,
            i < self.data@.len(),
        ensures
            v == self.data@[i as int],
    {
        self.data[i]
    }

    /// Set a rank-1 element.
    pub fn set1(&mut self, i: usize, v: T)
        requires
            old(self).index_types@.len() == 1,
            i < old(self).data@.len(),
        ensures
            final(self).dim == old(self).dim,
            final(self).index_types == old(self).index_types,
            final(self).data@ == old(self).data@.update(i as int, v),
    {
        self.data.set(i, v);
    }

    /// Index into a rank-2 tensor.
    pub fn get2(&self, i: usize, j: usize) -> (v: T)
        requires
            self.index_types@.len() == 2,
            i * self.dim + j < self.data@.len(),
        ensures
            v == self.data@[i * self.dim + j],
    {
        // a stored length fits in a usize, which bounds the position below
        let len = self.data.len();
        assert(i * self.dim <= i * self.dim + j);
        self.data[i * self.dim + j]
    }

    /// Set a rank-2 element.
    pub fn set2(&mut self, i: usize, j: usize, v: T)
        requires
            old(self).index_types@.len() == 2,
            i * old(self).dim + j < old(self).data@.len(),
        ensures
            final(self).dim == old(self).dim,
            final(self).index_types == old(self).index_types,
            final(self).data@ == old(self).data@.update(i * old(self).dim + j, v),
    {
        let d = self.dim;
        // a stored length fits in a usize, which bounds the position below
        let len = self.data.len();
        assert(i * d <= i * d + j);
        self.data.set(i * d + j, v);
    }

    /// Index into a rank-3 tensor.
    pub fn get3(&self, i: usize, j: usize, k: usize) -> (v: T)
        requires
            self.index_types@.len() == 3,
            i * self.dim * self.dim + j * self.dim + k < self.data@.len(),
        ensures
            v == self.data@[i * self.dim * self.dim + j * self.dim + k],
    {
        let d = self.dim;
        // a stored length fits in a usize, which bounds the position below
        let len = self.data.len();
        proof {
            lemma_partial_products3(i as nat, j as nat, k as nat, d as nat);
        }
        self.data[i * d * d + j * d + k]
    }

    /// Set a rank-3 element.
    pub fn set3(&mut self, i: usize, j: usize, k: usize, v: T)
        requires
            old(self).index_types@.len() == 3,
            i * old(self).dim * old(self).dim + j * old(self).dim + k < old(self).data@.len(),
        ensures
            final(self).dim == old(self).dim,
            final(self).index_types == old(self).index_types,
            final(self).data@ == old(self).data@.update(
                i * old(self).dim * old(self).dim + j * old(self).dim + k,
                v,
            ),
    {
        let d = self.dim;
        // a stored length fits in a usize, which bounds the position below
        let len = self.data.len();
        proof {
            lemma_partial_products3(i as nat, j as nat, k as nat, d as nat);
        }
        self.data.set(i * d * d + j * d + k, v);
    }

    /// Index into a rank-4 tensor.
    pub fn get4(&self, i: usize, j: usize, k: usize, l: usize) -> (v: T)
        requires
            self.index_types@.len() == 4,
            i * self.dim * self.dim * self.dim + j * self.dim * self.dim + k * self.dim + l
                < self.data@.len(),
        ensures
            v == self.data@[i * self.dim * self.dim * self.dim + j * self.dim * self.dim + k
                * self.dim + l],
    {
        let d = self.dim;
        // a stored length fits in a usize, which bounds the position below
        let len = self.data.len();
        proof {
            lemma_partial_products4(i as nat, j as nat, k as nat, l as nat, d as nat);
        }
        self.data[i * d * d * d + j * d * d + k * d + l]
    }

    /// Set a rank-4 element.
    pub fn set4(&mut self, i: usize, j: usize, k: usize, l: usize, v: T)
        requires
            old(self).index_types@.len() == 4,
            i * old(self).dim * old(self).dim * old(self).dim + j * old(self).dim * old(self).dim
                + k * old(self).dim + l < old(self).data@.len(),
        ensures
            final(self).dim == old(self).dim,
            final(self).index_types == old(self).index_types,
            final(self).data@ == old(self).data@.update(
                i * old(self).dim * old(self).dim * old(self).dim + j * old(self).dim
                    * old(self).dim + k * old(self).dim + l,
                v,
            ),
    {
        let d = self.dim;
        // a stored length fits in a usize, which bounds the position below
        let len = self.data.len();
        proof {
            lemma_partial_products4(i as nat, j as nat, k as nat, l as nat, d as nat);
        }
        self.data.set(i * d * d * d + j * d * d + k * d + l, v);
    }

    /// Get element by multi-index.
    pub fn get_multi(&self, idx: &[usize]) -> (v: T)
        requires
            self.index_types@.len() <= idx@.len(),
            flat_of(idx@.take(self.index_types@.len() as int), self.dim as nat) < self.data@.len(),
        ensures
            v == self.data@[flat_of(idx@.take(self.index_types@.len() as int), self.dim as nat) as int],
    {
        // a stored length fits in a usize, which bounds the position below
        let len = self.data.len();
        let flat = flatten_idx(idx, self.rank(), self.dim);
        self.data[flat]
    }

    /// Set element by multi-index.
    pub fn set_multi(&mut self, idx: &[usize], val: T)
        requires
            old(self).index_types@.len() <= idx@.len(),
            flat_of(idx@.take(old(self).index_types@.len() as int), old(self).dim as nat) < old(
                self,
            ).data@.len(),
        ensures
            final(self).dim == old(self).dim,
            final(self).index_types == old(self).index_types,
            final(self).data@ == old(self).data@.update(
                flat_of(idx@.take(old(self).index_types@.len() as int), old(self).dim as nat) as int,
                val,
            ),
    {
        // a stored length fits in a usize, which bounds the position below
        let len = self.data.len();
        let flat = flatten_idx(idx, self.rank(), self.dim);
        self.data.set(flat, val);
    }
}

/// The partial sums and products of a rank-3 row-major position are bounded
/// by the position.
pub proof fn lemma_partial_products3(i: nat, j: nat, k: nat, d: nat)
    ensures
        i * d <= i * d * d + j * d + k || d == 0,
        i * d * d <= i * d * d + j * d + k,
        j * d <= i * d * d + j * d + k,
{
    assert(i * d * d >= 0 && j * d >= 0) by (nonlinear_arith);
    if d > 0 {
        assert(i * d <= i * d * d) by (nonlinear_arith)
            requires
                d >= 1,
        ;
    }
}

/// The partial sums and products of a rank-4 row-major position are bounded
/// by the position.
pub proof fn lemma_partial_products4(i: nat, j: nat, k: nat, l: nat, d: nat)
    ensures
        i * d <= i * d * d * d + j * d * d + k * d + l || d == 0,
        i * d * d <= i * d * d * d + j * d * d + k * d + l || d == 0,
        i * d * d * d <= i * d * d * d + j * d * d + k * d + l,
        j * d <= i * d * d * d + j * d * d + k * d + l || d == 0,
        j * d * d <= i * d * d * d + j * d * d + k * d + l,
        k * d <= i * d * d * d + j * d * d + k * d + l,
{
    assert(i * d * d * d >= 0 && j * d * d >= 0 && k * d >= 0) by (nonlinear_arith);
    if d > 0 {
        assert(i * d <= i * d * d && i * d * d <= i * d * d * d && j * d <= j * d * d)
            by (nonlinear_arith)
            requires
                d >= 1,
        ;
    }
}

} // verus!

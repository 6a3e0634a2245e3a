//! Row-major layout of tensor components: multi-indices, their flat
//! positions, and the odometer that walks them in storage order.
use vstd::prelude::*;
use vstd::arithmetic::div_mod::*;

verus! {

/// Number of components of a tensor of rank `rank` over a manifold of
/// dimension `dim`, that is `dim^rank`.
pub open spec fn num_components(dim: nat, rank: nat) -> nat
    decreases rank,
{
    if rank == 0 {
        1
    } else {
        num_components(dim, (rank - 1) as nat) * dim
    }
}

/// Every entry of the multi-index is a coordinate index below `dim`.
pub open spec fn in_bounds(idx: Seq<usize>, dim: nat) -> bool {
    forall|p: int| 0 <= p < idx.len() ==> (#[trigger] idx[p]) < dim
}

/// Row-major position of a multi-index: the last index varies fastest.
pub open spec fn flat_of(idx: Seq<usize>, dim: nat) -> nat
    decreases idx.len(),
{
    if idx.len() == 0 {
        0
    } else {
        flat_of(idx.drop_last(), dim) * dim + (idx.last() as nat)
    }
}

/// The multi-index of rank `rank` stored at row-major position `f`.
pub open spec fn unflat(f: nat, dim: nat, rank: nat) -> Seq<usize>
    decreases rank,
{
    if rank == 0 {
        Seq::empty()
    } else {
        unflat(f / dim, dim, (rank - 1) as nat).push((f % dim) as usize)
    }
}

/// There is at least one component when the dimension is positive.
pub proof fn lemma_num_components_positive(dim: nat, rank: nat)
    requires
        dim > 0,
    ensures
        num_components(dim, rank) > 0,
    decreases rank,
{
    if rank > 0 {
        lemma_num_components_positive(dim, (rank - 1) as nat);
        let p = num_components(dim, (rank - 1) as nat);
        assert(p * dim > 0) by (nonlinear_arith)
            requires
                p > 0,
                dim > 0,
        ;
    }
}


/// A multi-index in bounds is stored strictly before the end of the storage.
pub proof fn lemma_flat_bound(idx: Seq<usize>, dim: nat)
    requires
        in_bounds(idx, dim),
    ensures
        flat_of(idx, dim) < num_components(dim, idx.len()),
    decreases idx.len(),
{
    if idx.len() > 0 {
        let rest = idx.drop_last();
        assert(in_bounds(rest, dim)) by {
            assert forall|p: int| 0 <= p < rest.len() implies (#[trigger] rest[p]) < dim by {
                assert(rest[p] == idx[p]);
            }
        }
        lemma_flat_bound(rest, dim);
        let f = flat_of(rest, dim);
        let p = num_components(dim, rest.len());
        let x = idx.last() as nat;
        assert(idx[idx.len() - 1] < dim);
        assert(f * dim + x < p * dim) by (nonlinear_arith)
            requires
                f < p,
                x < dim,
        ;
    }
}

/// Flattening a concatenation: the left part counts in blocks of the size
/// of the right part.
pub proof fn lemma_flat_concat(a: Seq<usize>, b: Seq<usize>, dim: nat)
    ensures
        flat_of(a + b, dim) == flat_of(a, dim) * num_components(dim, b.len()) + flat_of(b, dim),
    decreases b.len(),
{
    if b.len() == 0 {
        assert(a + b =~= a);
        assert(flat_of(a, dim) * 1 == flat_of(a, dim));
    } else {
        let b0 = b.drop_last();
        assert((a + b).drop_last() =~= a + b0);
        assert((a + b).last() == b.last());
        lemma_flat_concat(a, b0, dim);
        let fa = flat_of(a, dim);
        let fb = flat_of(b0, dim);
        let p = num_components(dim, b0.len());
        let x = b.last() as nat;
        assert(num_components(dim, b.len()) == p * dim);
        assert(flat_of(a + b, dim) == flat_of(a + b0, dim) * dim + x);
        assert((fa * p + fb) * dim + x == fa * (p * dim) + (fb * dim + x)) by (nonlinear_arith);
    }
}

/// A prefix is never stored after a longer prefix (for a positive dimension).
pub proof fn lemma_flat_prefix_le(s: Seq<usize>, t1: nat, t2: nat, dim: nat)
    requires
        dim >= 1,
        t1 <= t2 <= s.len(),
    ensures
        flat_of(s.take(t1 as int), dim) <= flat_of(s.take(t2 as int), dim),
    decreases t2,
{
    if t1 < t2 {
        lemma_flat_prefix_le(s, t1, (t2 - 1) as nat, dim);
        let prev = s.take((t2 - 1) as int);
        assert(s.take(t2 as int).drop_last() =~= prev);
        let f = flat_of(prev, dim);
        assert(f <= f * dim) by (nonlinear_arith)
            requires
                dim >= 1,
        ;
    }
}

/// Reading back the multi-index stored at a position gives the position.
pub proof fn lemma_flat_unflat(f: nat, dim: nat, rank: nat)
    requires
        0 < dim <= usize::MAX,
        f < num_components(dim, rank),
    ensures
        unflat(f, dim, rank).len() == rank,
        in_bounds(unflat(f, dim, rank), dim),
        flat_of(unflat(f, dim, rank), dim) == f,
    decreases rank,
{
    if rank > 0 {
        let q = f / dim;
        let r = f % dim;
        lemma_fundamental_div_mod(f as int, dim as int);
        let p = num_components(dim, (rank - 1) as nat);
        assert(q < p) by (nonlinear_arith)
            requires
                f == dim * q + r,
                0 <= r,
                f < p * dim,
                dim > 0,
        ;
        lemma_flat_unflat(q, dim, (rank - 1) as nat);
        let u = unflat(f, dim, rank);
        assert(u.drop_last() =~= unflat(q, dim, (rank - 1) as nat));
        assert(r < dim);
        assert(q * dim == dim * q) by (nonlinear_arith);
    }
}

/// Storing a multi-index in bounds and reading it back gives the multi-index:
/// row-major flattening is a bijection between multi-indices and positions.
pub proof fn lemma_unflat_flat(idx: Seq<usize>, dim: nat)
    requires
        dim > 0,
        in_bounds(idx, dim),
    ensures
        unflat(flat_of(idx, dim), dim, idx.len()) == idx,
    decreases idx.len(),
{
    if idx.len() > 0 {
        let rest = idx.drop_last();
        assert(in_bounds(rest, dim)) by {
            assert forall|p: int| 0 <= p < rest.len() implies (#[trigger] rest[p]) < dim by {
                assert(rest[p] == idx[p]);
            }
        }
        lemma_unflat_flat(rest, dim);
        let f = flat_of(rest, dim);
        let x = idx.last() as nat;
        assert(idx[idx.len() - 1] < dim);
        lemma_fundamental_div_mod_converse((f * dim + x) as int, dim as int, f as int, x as int);
        assert(unflat(flat_of(idx, dim), dim, idx.len()) =~= idx);
    }
}

/// Row-major position of the first `rank` entries of `idx`.
pub fn flatten_idx(idx: &[usize], rank: usize, dim: usize) -> (flat: usize)
    requires
        rank <= idx@.len(),
        flat_of(idx@.take(rank as int), dim as nat) <= usize::MAX,
    ensures
        flat == flat_of(idx@.take(rank as int), dim as nat),
{
    let mut flat: usize = 0;
    let mut t: usize = 0;
    assert(idx@.take(0) =~= Seq::<usize>::empty());
    while t < rank
        invariant
            t <= rank,
            rank <= idx@.len(),
            flat == flat_of(idx@.take(t as int), dim as nat),
            flat_of(idx@.take(rank as int), dim as nat) <= usize::MAX,
        decreases rank - t,
    {
        let ghost next = idx@.take(t + 1);
        assert(next.drop_last() =~= idx@.take(t as int));
        assert(next.last() == idx@[t as int]);
        if dim >= 1 {
            proof {
                lemma_flat_prefix_le(idx@, (t + 1) as nat, rank as nat, dim as nat);
            }
            assert(flat * dim + idx@[t as int] <= usize::MAX);
        } else {
            assert(flat * dim == 0) by (nonlinear_arith)
                requires
                    dim == 0,
            ;
        }
        flat = flat * dim + idx[t];
        t = t + 1;
    }
    flat
}

/// A multi-index whose entries are all `v`.
pub open spec fn constant_index(len: nat, v: usize) -> Seq<usize> {
    Seq::new(len, |p: int| v)
}

/// The all-zero multi-index is stored first.
pub proof fn lemma_flat_zeros(len: nat, dim: nat)
    ensures
        flat_of(constant_index(len, 0), dim) == 0,
    decreases len,
{
    if len > 0 {
        assert(constant_index(len, 0).drop_last() =~= constant_index((len - 1) as nat, 0));
        lemma_flat_zeros((len - 1) as nat, dim);
    }
}

/// The multi-index whose entries are all `dim - 1` is stored last.
pub proof fn lemma_flat_maxes(len: nat, dim: nat)
    requires
        0 < dim <= usize::MAX,
    ensures
        flat_of(constant_index(len, (dim - 1) as usize), dim) + 1 == num_components(dim, len),
    decreases len,
{
    if len > 0 {
        let top = (dim - 1) as usize;
        assert(constant_index(len, top).drop_last() =~= constant_index((len - 1) as nat, top));
        lemma_flat_maxes((len - 1) as nat, dim);
        let f = flat_of(constant_index((len - 1) as nat, top), dim);
        let p = num_components(dim, (len - 1) as nat);
        assert(f * dim + (dim - 1) + 1 == p * dim) by (nonlinear_arith)
            requires
                f + 1 == p,
        ;
    }
}

/// Steps a multi-index to the next one in row-major order, as an odometer:
/// the last entry is bumped, and entries that reach `dim` wrap to zero and
/// carry into the entry before. Returns whether the carry ran off the front,
/// which happens exactly when the multi-index was the last one; it is then
/// reset to all zeros.
pub fn increment_multi_index(idx: &mut Vec<usize>, dim: usize) -> (carry: bool)
    requires
        dim > 0,
        in_bounds(old(idx)@, dim as nat),
    ensures
        final(idx)@.len() == old(idx)@.len(),
        in_bounds(final(idx)@, dim as nat),
        carry <==> flat_of(old(idx)@, dim as nat) + 1 == num_components(
            dim as nat,
            old(idx)@.len(),
        ),
        !carry ==> flat_of(final(idx)@, dim as nat) == flat_of(old(idx)@, dim as nat) + 1,
        carry ==> flat_of(final(idx)@, dim as nat) == 0,
{
    let ghost orig = idx@;
    let n = idx.len();
    let mut carrying = true;
    let mut i: usize = n;
    let ghost mut stop: int = n as int;
    while i > 0
        invariant
            idx@.len() == n,
            orig.len() == n,
            i <= n,
            dim > 0,
            in_bounds(orig, dim as nat),
            forall|p: int| 0 <= p < i ==> idx@[p] == orig[p],
            carrying ==> forall|p: int| i <= p < n ==> idx@[p] == 0,
            carrying ==> forall|p: int| i <= p < n ==> orig[p] + 1 == dim,
            !carrying ==> {
                &&& i <= stop < n
                &&& idx@[stop] == orig[stop] + 1
                &&& idx@[stop] < dim
                &&& forall|p: int| i <= p < stop ==> idx@[p] == orig[p]
                &&& forall|p: int| stop < p < n ==> idx@[p] == 0
                &&& forall|p: int| stop < p < n ==> orig[p] + 1 == dim
            },
        decreases i,
    {
        i = i - 1;
        if carrying {
            assert(orig[i as int] < dim);
            let bumped = idx[i] + 1;
            if bumped >= dim {
                idx.set(i, 0);
            } else {
                idx.set(i, bumped);
                carrying = false;
                proof {
                    stop = i as int;
                }
            }
        }
    }
    let ghost d = dim as nat;
    let ghost top = (dim - 1) as usize;
    assert(top + 1 == dim);
    assert(i == 0);
    if carrying {
        assert(forall|p: int| 0 <= p < n ==> #[trigger] orig[p] == top);
        proof {
            assert(orig =~= constant_index(n as nat, top));
            assert(idx@ =~= constant_index(n as nat, 0));
            lemma_flat_maxes(n as nat, d);
            lemma_flat_zeros(n as nat, d);
        }
    } else {
        assert(forall|p: int| stop < p < n ==> #[trigger] orig[p] == top);
        proof {
            let k = (n - stop - 1) as nat;
            let pre = orig.take(stop);
            let x = orig[stop];
            assert(orig =~= (pre + seq![x]) + constant_index(k, top));
            assert(idx@ =~= (pre + seq![(x + 1) as usize]) + constant_index(k, 0));
            lemma_flat_concat(pre + seq![x], constant_index(k, top), d);
            lemma_flat_concat(pre + seq![(x + 1) as usize], constant_index(k, 0), d);
            assert((pre + seq![x]).drop_last() =~= pre);
            assert((pre + seq![(x + 1) as usize]).drop_last() =~= pre);
            lemma_flat_maxes(k, d);
            lemma_flat_zeros(k, d);
            let a = flat_of(pre, d) * d + x;
            let pk = num_components(d, k);
            assert((a + 1) * pk == a * pk + pk) by (nonlinear_arith);
            assert(in_bounds(idx@, d));
            lemma_flat_bound(idx@, d);
        }
    }
    carrying
}

} // verus!

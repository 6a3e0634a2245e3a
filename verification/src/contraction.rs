//! Contraction of a contravariant index with a covariant one.
use vstd::prelude::*;
use crate::fold::{fold_trace, folds_to, lemma_fold_trace_push};
use crate::layout::{
    in_bounds, increment_multi_index, lemma_flat_bound, lemma_flat_unflat,
    lemma_flat_zeros, lemma_unflat_flat, constant_index, num_components, unflat,
};
use crate::tensor::{component_count, lemma_num_components_monotone, IndexType, Tensor};

verus! {

/// How many of the two positions `a` and `b` come before position `q`.
pub open spec fn skipped_before(q: int, a: int, b: int) -> int {
    (if a < q { 1int } else { 0int }) + (if b < q { 1int } else { 0int })
}

/// The position of the `p`-th index that remains once positions `a` and `b`
/// are taken out.
pub open spec fn kept_position(p: int, a: int, b: int) -> int {
    let lo = if a < b { a } else { b };
    let hi = if a < b { b } else { a };
    if p < lo {
        p
    } else if p + 1 < hi {
        p + 1
    } else {
        p + 2
    }
}

/// The sequence with the entries at positions `a` and `b` taken out.
pub open spec fn without_pair<A>(s: Seq<A>, a: int, b: int) -> Seq<A> {
    Seq::new((s.len() - 2) as nat, |p: int| s[kept_position(p, a, b)])
}

/// The multi-index that has `c` at positions `a` and `b` and the entries of
/// `kept`, in order, everywhere else.
pub open spec fn with_pair(kept: Seq<usize>, a: int, b: int, c: usize) -> Seq<usize> {
    Seq::new(
        kept.len() + 2,
        |q: int|
            if q == a || q == b {
                c
            } else {
                kept[q - skipped_before(q, a, b)]
            },
    )
}

/// Taking out two distinct positions and putting them back are inverse
/// bookkeeping operations on positions.
pub proof fn lemma_kept_position(a: int, b: int, rank: int)
    requires
        a != b,
        0 <= a < rank,
        0 <= b < rank,
    ensures
        forall|p: int|
            0 <= p < rank - 2 ==> {
                let q = #[trigger] kept_position(p, a, b);
                &&& 0 <= q < rank
                &&& q != a
                &&& q != b
                &&& q - skipped_before(q, a, b) == p
            },
        forall|q: int|
            0 <= q < rank && q != a && q != b ==> {
                let p = q - #[trigger] skipped_before(q, a, b);
                &&& 0 <= p < rank - 2
                &&& kept_position(p, a, b) == q
            },
{
}


impl<T: Copy> Tensor<T> {
    /// The components summed into the `o`-th component of the contraction of
    /// indices `a` and `b`: those whose `a`-th and `b`-th indices are equal,
    /// taken in the order of that common index.
    pub open spec fn contraction_terms(&self, a: int, b: int, o: nat) -> Seq<T> {
        let kept = unflat(o, self.dim as nat, (self.index_types@.len() - 2) as nat);
        Seq::new(self.dim as nat, |c: int| self.component(with_pair(kept, a, b, c as usize)))
    }

    /// Contract the `a`-th index with the `b`-th index; one must be
    /// contravariant and the other covariant. Each component of the result is
    /// `plus` folded from `zero` over the components with equal `a`-th and
    /// `b`-th indices, in the order of that index.
    pub fn contract_with<F: Fn(T, T) -> T>(&self, a: usize, b: usize, zero: T, plus: F) -> (t:
        Tensor<T>)
        requires
            a != b,
            a < self.index_types@.len(),
            b < self.index_types@.len(),
            self.index_types@[a as int] != self.index_types@[b as int],
            self.dim > 0 || self.index_types@.len() == 2,
            self.data@.len() >= num_components(self.dim as nat, self.index_types@.len()),
            forall|x: T, y: T| call_requires(plus, (x, y)),
        ensures
            t.dim == self.dim,
            t.index_types@ == without_pair(self.index_types@, a as int, b as int),
            t.wf(),
            forall|o: int|
                0 <= o < t.data@.len() ==> folds_to(
                    plus,
                    zero,
                    self.contraction_terms(a as int, b as int, o as nat),
                    #[trigger] t.data@[o],
                ),
    {
        let dim = self.dim;
        let rank = self.rank();
        let new_rank = rank - 2;
        let ghost d = dim as nat;
        proof {
            lemma_kept_position(a as int, b as int, rank as int);
        }

        // Build the list of remaining index positions
        let mut keep: Vec<usize> = Vec::new();
        let mut i: usize = 0;
        while i < rank
            invariant
                i <= rank,
                a != b,
                a < rank,
                b < rank,
                keep@.len() == i - skipped_before(i as int, a as int, b as int),
                forall|p: int|
                    0 <= p < keep@.len() ==> #[trigger] keep@[p] == kept_position(
                        p,
                        a as int,
                        b as int,
                    ),
            decreases rank - i,
        {
            if i != a && i != b {
                keep.push(i);
            }
            i = i + 1;
        }
        assert(keep@.len() == new_rank);

        let mut new_index_types: Vec<IndexType> = Vec::new();
        let mut p: usize = 0;
        while p < keep.len()
            invariant
                p <= keep@.len(),
                keep@.len() == new_rank,
                new_rank == rank - 2,
                rank == self.index_types@.len(),
                forall|p: int|
                    0 <= p < keep@.len() ==> 0 <= #[trigger] keep@[p] < rank,
                new_index_types@ =~= without_pair(self.index_types@, a as int, b as int).take(
                    p as int,
                ),
                forall|q: int|
                    0 <= q < keep@.len() ==> #[trigger] keep@[q] == kept_position(
                        q,
                        a as int,
                        b as int,
                    ),
            decreases keep@.len() - p,
        {
            new_index_types.push(self.index_types[keep[p]]);
            p = p + 1;
        }
        assert(new_index_types@ =~= without_pair(self.index_types@, a as int, b as int));

        // The number of components of the result
        proof {
            if d >= 1 {
                lemma_num_components_monotone(d, new_rank as nat, rank as nat);
                crate::layout::lemma_num_components_positive(d, new_rank as nat);
            }
        }
        let n_in = self.data.len();
        let new_size = component_count(dim, new_rank);

        let mut full_idx: Vec<usize> = Vec::new();
        while full_idx.len() < rank
            invariant
                full_idx@.len() <= rank,
            decreases rank - full_idx@.len(),
        {
            full_idx.push(0);
        }
        let mut new_idx: Vec<usize> = Vec::new();
        while new_idx.len() < new_rank
            invariant
                new_idx@.len() <= new_rank,
                forall|q: int| 0 <= q < new_idx@.len() ==> new_idx@[q] == 0,
            decreases new_rank - new_idx@.len(),
        {
            new_idx.push(0);
        }
        proof {
            assert(new_idx@ =~= constant_index(new_rank as nat, 0));
            lemma_flat_zeros(new_rank as nat, d);
            if d > 0 {
                lemma_unflat_flat(new_idx@, d);
            }
        }
        let mut new_data: Vec<T> = Vec::new();

        loop
            invariant_except_break
                new_data@.len() < new_size,
                new_idx@ == unflat(new_data@.len() as nat, d, new_rank as nat),
            invariant
                d == dim,
                dim == self.dim,
                rank == self.index_types@.len(),
                new_rank == rank - 2,
                a != b,
                a < rank,
                b < rank,
                dim > 0 || rank == 2,
                new_size == num_components(d, new_rank as nat),
                self.data@.len() >= num_components(d, rank as nat),
                keep@.len() == new_rank,
                forall|q: int|
                    0 <= q < keep@.len() ==> #[trigger] keep@[q] == kept_position(
                        q,
                        a as int,
                        b as int,
                    ),
                full_idx@.len() == rank,
                new_idx@.len() == new_rank,
                in_bounds(new_idx@, d),
                new_data@.len() <= new_size,
                forall|x: T, y: T| call_requires(plus, (x, y)),
                forall|o: int|
                    0 <= o < new_data@.len() ==> folds_to(
                        plus,
                        zero,
                        self.contraction_terms(a as int, b as int, o as nat),
                        #[trigger] new_data@[o],
                    ),
            ensures
                new_data@.len() == new_size,
                forall|o: int|
                    0 <= o < new_data@.len() ==> folds_to(
                        plus,
                        zero,
                        self.contraction_terms(a as int, b as int, o as nat),
                        #[trigger] new_data@[o],
                    ),
            decreases new_size - new_data@.len(),
        {
            let ghost o = new_data@.len() as nat;
            let ghost kept = new_idx@;
            proof {
                lemma_kept_position(a as int, b as int, rank as int);
            }

            // Copy the remaining indices into their positions
            full_idx.set(a, 0);
            full_idx.set(b, 0);
            let mut ki: usize = 0;
            while ki < keep.len()
                invariant
                    ki <= keep@.len(),
                    keep@.len() == new_rank,
                    new_rank == rank - 2,
                    a != b,
                    a < rank,
                    b < rank,
                    full_idx@.len() == rank,
                    new_idx@ == kept,
                    kept.len() == new_rank,
                    forall|q: int|
                        0 <= q < keep@.len() ==> #[trigger] keep@[q] == kept_position(
                            q,
                            a as int,
                            b as int,
                        ),
                    forall|q: int|
                        0 <= q < ki ==> full_idx@[#[trigger] kept_position(q, a as int, b as int)]
                            == kept[q],
                decreases keep@.len() - ki,
            {
                let pos = keep[ki];
                assert(pos == kept_position(ki as int, a as int, b as int));
                full_idx.set(pos, new_idx[ki]);
                proof {
                    assert forall|q: int| 0 <= q < ki + 1 implies full_idx@[#[trigger] kept_position(
                        q,
                        a as int,
                        b as int,
                    )] == kept[q] by {
                        if q < ki {
                            assert(kept_position(q, a as int, b as int) != pos);
                        }
                    }
                }
                ki = ki + 1;
            }
            assert forall|q: int|
                0 <= q < rank && q != a && q != b implies #[trigger] full_idx@[q] == kept[q
                - skipped_before(q, a as int, b as int)] by {
                let pp = q - skipped_before(q, a as int, b as int);
                assert(kept_position(pp, a as int, b as int) == q);
            }

            // Sum over the contracted index
            let mut sum = zero;
            let ghost terms = self.contraction_terms(a as int, b as int, o);
            let ghost mut partials: Seq<T> = seq![zero];
            proof {
                assert(terms.take(0) =~= Seq::<T>::empty());
            }
            let mut c: usize = 0;
            while c < dim
                invariant
                    c <= dim,
                    d == dim,
                    dim == self.dim,
                    rank == self.index_types@.len(),
                    new_rank == rank - 2,
                    a != b,
                    a < rank,
                    b < rank,
                    full_idx@.len() == rank,
                    kept.len() == new_rank,
                    in_bounds(kept, d),
                    kept == unflat(o, d, new_rank as nat),
                    terms == self.contraction_terms(a as int, b as int, o),
                    self.data@.len() >= num_components(d, rank as nat),
                    forall|x: T, y: T| call_requires(plus, (x, y)),
                    forall|q: int|
                        0 <= q < rank && q != a && q != b ==> #[trigger] full_idx@[q] == kept[q
                            - skipped_before(q, a as int, b as int)],
                    fold_trace(plus, zero, terms.take(c as int), partials),
                    partials.last() == sum,
                decreases dim - c,
            {
                full_idx.set(a, c);
                full_idx.set(b, c);
                let ghost full = with_pair(kept, a as int, b as int, c);
                assert(full_idx@ =~= full);
                assert(full_idx@.take(rank as int) =~= full_idx@);
                proof {
                    assert(in_bounds(full, d));
                    lemma_flat_bound(full, d);
                }
                let x = self.get_multi(full_idx.as_slice());
                assert(x == terms[c as int]);
                let ghost prev = sum;
                sum = plus(sum, x);
                proof {
                    lemma_fold_trace_push(plus, zero, terms.take(c as int), partials, x, sum);
                    partials = partials.push(sum);
                    assert(terms.take(c as int).push(x) =~= terms.take(c + 1));
                }
                c = c + 1;
            }
            proof {
                assert(terms.take(dim as int) =~= terms);
            }
            new_data.push(sum);
            assert(new_data@[o as int] == sum);
            assert(folds_to(plus, zero, terms, sum));

            if new_rank == 0 {
                assert(new_size == 1);
                break;
            }
            proof {
                lemma_flat_unflat(o, d, new_rank as nat);
            }
            let carry = increment_multi_index(&mut new_idx, dim);
            if carry {
                break;
            }
            proof {
                lemma_unflat_flat(new_idx@, d);
                lemma_flat_bound(new_idx@, d);
            }
        }

        Tensor { dim, index_types: new_index_types, data: new_data }
    }
}

} // verus!

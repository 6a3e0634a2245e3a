//! Component-wise arithmetic, outer products and comparisons of tensors, with the arithmetic supplied by the caller.
use vstd::prelude::*;
use vstd::arithmetic::div_mod::lemma_fundamental_div_mod_converse;
use crate::tensor::{IndexType, Tensor};

verus! {

/// `t` is an outer product of `x` and `y` as `outer_product_with` computes
/// it: the index types concatenated, and at position p a result of `times`
/// on x's component p / |y| and y's component p % |y|.
pub open spec fn is_outer_product<T, F: Fn(T, T) -> T>(
    t: &Tensor<T>,
    x: &Tensor<T>,
    y: &Tensor<T>,
    times: F,
) -> bool {
    &&& t.dim == x.dim
    &&& t.index_types@ == x.index_types@ + y.index_types@
    &&& t.data@.len() == x.data@.len() * y.data@.len()
    &&& forall|p: int|
        0 <= p < t.data@.len() ==> call_ensures(
            times,
            (x.data@[p / (y.data@.len() as int)], y.data@[p % (y.data@.len() as int)]),
            #[trigger] t.data@[p],
        )
}

impl<T: Copy> Tensor<T> {
    /// Tensor addition (same shape): component `i` is `plus(self[i], other[i])`,
    /// over the components both hold.
    pub fn add_with<F: Fn(T, T) -> T>(&self, other: &Tensor<T>, plus: F) -> (t: Tensor<T>)
        requires
            self.dim == other.dim,
            self.index_types@ == other.index_types@,
            forall|x: T, y: T| call_requires(plus, (x, y)),
        ensures
            t.dim == self.dim,
            t.index_types@ == self.index_types@,
            t.data@.len() == if self.data@.len() <= other.data@.len() {
                self.data@.len()
            } else {
                other.data@.len()
            },
            forall|i: int|
                0 <= i < t.data@.len() ==> call_ensures(
                    plus,
                    (self.data@[i], other.data@[i]),
                    #[trigger] t.data@[i],
                ),
    {
        let n = if self.data.len() <= other.data.len() {
            self.data.len()
        } else {
            other.data.len()
        };
        let mut data: Vec<T> = Vec::new();
        let mut i: usize = 0;
        while i < n
            invariant
                i <= n,
                n <= self.data@.len(),
                n <= other.data@.len(),
                data@.len() == i,
                forall|x: T, y: T| call_requires(plus, (x, y)),
                forall|p: int|
                    0 <= p < i ==> call_ensures(
                        plus,
                        (self.data@[p], other.data@[p]),
                        #[trigger] data@[p],
                    ),
            decreases n - i,
        {
            let v = plus(self.data[i], other.data[i]);
            data.push(v);
            i = i + 1;
        }
        Tensor { dim: self.dim, index_types: copy_types(&self.index_types), data }
    }

    /// Scalar multiplication: component `i` is `times(self[i])`, so
    /// `times(x) = x * s` scales by `s`.
    pub fn scale_with<F: Fn(T) -> T>(&self, times: F) -> (t: Tensor<T>)
        requires
            forall|x: T| call_requires(times, (x,)),
        ensures
            t.dim == self.dim,
            t.index_types@ == self.index_types@,
            t.data@.len() == self.data@.len(),
            forall|i: int|
                0 <= i < t.data@.len() ==> call_ensures(
                    times,
                    (self.data@[i],),
                    #[trigger] t.data@[i],
                ),
    {
        let mut data: Vec<T> = Vec::new();
        let mut i: usize = 0;
        while i < self.data.len()
            invariant
                i <= self.data@.len(),
                data@.len() == i,
                forall|x: T| call_requires(times, (x,)),
                forall|p: int|
                    0 <= p < i ==> call_ensures(times, (self.data@[p],), #[trigger] data@[p]),
            decreases self.data@.len() - i,
        {
            let v = times(self.data[i]);
            data.push(v);
            i = i + 1;
        }
        Tensor { dim: self.dim, index_types: copy_types(&self.index_types), data }
    }

    /// Outer (tensor) product of two tensors: the index types are those of
    /// `self` followed by those of `other`, and component
    /// `s * other.data.len() + o` is `times(self[s], other[o])`.
    pub fn outer_product_with<F: Fn(T, T) -> T>(&self, other: &Tensor<T>, times: F) -> (t: Tensor<
        T,
    >)
        requires
            self.data@.len() * other.data@.len() <= usize::MAX,
            forall|x: T, y: T| call_requires(times, (x, y)),
        ensures
            is_outer_product(&t, self, other, times),
    {
        let mut index_types: Vec<IndexType> = copy_types(&self.index_types);
        let mut q: usize = 0;
        while q < other.index_types.len()
            invariant
                q <= other.index_types@.len(),
                index_types@ =~= self.index_types@ + other.index_types@.take(q as int),
            decreases other.index_types@.len() - q,
        {
            index_types.push(other.index_types[q]);
            q = q + 1;
        }
        assert(other.index_types@.take(other.index_types@.len() as int) =~= other.index_types@);
        let na = self.data.len();
        let nb = other.data.len();
        let mut data: Vec<T> = Vec::new();
        let mut s: usize = 0;
        assert(s * nb == 0) by (nonlinear_arith)
            requires
                s == 0,
        ;
        while s < na
            invariant
                s <= na,
                na == self.data@.len(),
                nb == other.data@.len(),
                na * nb <= usize::MAX,
                data@.len() == s * nb,
                forall|x: T, y: T| call_requires(times, (x, y)),
                forall|p: int|
                    0 <= p < data@.len() ==> call_ensures(
                        times,
                        (self.data@[p / (nb as int)], other.data@[p % (nb as int)]),
                        #[trigger] data@[p],
                    ),
            decreases na - s,
        {
            assert(s * nb + nb <= na * nb) by (nonlinear_arith)
                requires
                    s < na,
            ;
            let mut o: usize = 0;
            while o < nb
                invariant
                    s < na,
                    o <= nb,
                    na == self.data@.len(),
                    nb == other.data@.len(),
                    s * nb + nb <= na * nb,
                    na * nb <= usize::MAX,
                    data@.len() == s * nb + o,
                    forall|x: T, y: T| call_requires(times, (x, y)),
                    forall|p: int|
                        0 <= p < data@.len() ==> call_ensures(
                            times,
                            (self.data@[p / (nb as int)], other.data@[p % (nb as int)]),
                            #[trigger] data@[p],
                        ),
                decreases nb - o,
            {
                let v = times(self.data[s], other.data[o]);
                proof {
                    lemma_fundamental_div_mod_converse(
                        (s * nb + o) as int,
                        nb as int,
                        s as int,
                        o as int,
                    );
                }
                data.push(v);
                o = o + 1;
            }
            assert(s * nb + nb == (s + 1) * nb) by (nonlinear_arith);
            s = s + 1;
        }
        Tensor { dim: self.dim, index_types, data }
    }

    /// Convert to a Vec of the components in storage order.
    pub fn to_vec(&self) -> (v: Vec<T>)
        ensures
            v@ == self.data@,
    {
        let mut v: Vec<T> = Vec::new();
        let mut i: usize = 0;
        while i < self.data.len()
            invariant
                i <= self.data@.len(),
                v@ =~= self.data@.take(i as int),
            decreases self.data@.len() - i,
        {
            v.push(self.data[i]);
            i = i + 1;
        }
        assert(self.data@.take(self.data@.len() as int) =~= self.data@);
        v
    }

    /// Get scalar value (rank-0).
    pub fn scalar_value(&self) -> (v: T)
        requires
            self.index_types@.len() == 0,
            self.data@.len() > 0,
        ensures
            v == self.data@[0],
    {
        self.data[0]
    }

    /// Check approximate equality with another tensor: false when the
    /// dimension or the index types differ, and otherwise whether `close`
    /// holds of every pair of components both tensors hold, in order.
    pub fn approx_eq_with<F: Fn(T, T) -> bool>(&self, other: &Tensor<T>, close: F) -> (b: bool)
        requires
            forall|x: T, y: T| call_requires(close, (x, y)),
        ensures
            b ==> self.dim == other.dim && self.index_types@ == other.index_types@ && forall|i: int|
                0 <= i < self.data@.len() && i < other.data@.len() ==> call_ensures(
                    close,
                    (self.data@[i], other.data@[i]),
                    true,
                ),
            !b ==> self.dim != other.dim || self.index_types@ != other.index_types@ || exists|i: int|
                0 <= i < self.data@.len() && i < other.data@.len() && call_ensures(
                    close,
                    (#[trigger] self.data@[i], other.data@[i]),
                    false,
                ),
    {
        if self.dim != other.dim || !same_types(&self.index_types, &other.index_types) {
            return false;
        }
        let n = if self.data.len() <= other.data.len() {
            self.data.len()
        } else {
            other.data.len()
        };
        let mut i: usize = 0;
        while i < n
            invariant
                i <= n,
                n <= self.data@.len(),
                n <= other.data@.len(),
                n == self.data@.len() || n == other.data@.len(),
                forall|x: T, y: T| call_requires(close, (x, y)),
                forall|p: int|
                    0 <= p < i ==> call_ensures(
                        close,
                        (#[trigger] self.data@[p], other.data@[p]),
                        true,
                    ),
            decreases n - i,
        {
            let ok = close(self.data[i], other.data[i]);
            if !ok {
                return false;
            }
            i = i + 1;
        }
        true
    }
}

/// A copy of a list of index types.
pub fn copy_types(types: &Vec<IndexType>) -> (r: Vec<IndexType>)
    ensures
        r@ == types@,
{
    let mut r: Vec<IndexType> = Vec::new();
    let mut i: usize = 0;
    while i < types.len()
        invariant
            i <= types@.len(),
            r@ =~= types@.take(i as int),
        decreases types@.len() - i,
    {
        r.push(types[i]);
        i = i + 1;
    }
    assert(types@.take(types@.len() as int) =~= types@);
    r
}

/// Whether two lists of index types are equal.
pub fn same_types(a: &Vec<IndexType>, b: &Vec<IndexType>) -> (r: bool)
    ensures
        r == (a@ == b@),
{
    if a.len() != b.len() {
        return false;
    }
    let mut i: usize = 0;
    while i < a.len()
        invariant
            i <= a@.len(),
            a@.len() == b@.len(),
            forall|p: int| 0 <= p < i ==> a@[p] == b@[p],
        decreases a@.len() - i,
    {
        if a[i] != b[i] {
            return false;
        }
        i = i + 1;
    }
    assert(a@ =~= b@);
    true
}

} // verus!

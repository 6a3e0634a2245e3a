//! Sums in an abelian group given by its operations, and folds that add one
//! term per item: the algebra behind identities that hold when the
//! arithmetic handed to the library is exact.
use vstd::prelude::*;
use crate::fold::{fold_trace, folds_to};
use vstd::arithmetic::div_mod::lemma_fundamental_div_mod_converse;

verus! {

/// `plus`, `neg` and `e` make the values an abelian group.
#[verifier::opaque]
pub open spec fn abelian_group<T>(plus: spec_fn(T, T) -> T, neg: spec_fn(T) -> T, e: T) -> bool {
    &&& forall|a: T, b: T, c: T| #[trigger] plus(plus(a, b), c) == plus(a, plus(b, c))
    &&& forall|a: T, b: T| #[trigger] plus(a, b) == plus(b, a)
    &&& forall|a: T| #[trigger] plus(a, e) == a
    &&& forall|a: T| #[trigger] plus(a, neg(a)) == e
}

/// The sum of `xs` from the left, starting at `e`.
pub open spec fn group_sum<T>(plus: spec_fn(T, T) -> T, e: T, xs: Seq<T>) -> T
    decreases xs.len(),
{
    if xs.len() == 0 {
        e
    } else {
        plus(group_sum(plus, e, xs.drop_last()), xs.last())
    }
}

/// (a + b) + c = a + (b + c).
pub proof fn lemma_assoc<T>(plus: spec_fn(T, T) -> T, neg: spec_fn(T) -> T, e: T, a: T, b: T, c: T)
    requires
        abelian_group(plus, neg, e),
    ensures
        plus(plus(a, b), c) == plus(a, plus(b, c)),
{
    reveal(abelian_group);
}

/// a + b = b + a.
pub proof fn lemma_comm<T>(plus: spec_fn(T, T) -> T, neg: spec_fn(T) -> T, e: T, a: T, b: T)
    requires
        abelian_group(plus, neg, e),
    ensures
        plus(a, b) == plus(b, a),
{
    reveal(abelian_group);
}

/// a + e = a and a + (-a) = e.
pub proof fn lemma_identity_inverse<T>(plus: spec_fn(T, T) -> T, neg: spec_fn(T) -> T, e: T, a: T)
    requires
        abelian_group(plus, neg, e),
    ensures
        plus(a, e) == a,
        plus(a, neg(a)) == e,
{
    reveal(abelian_group);
}

/// `step` adds `f` of its item to its accumulator.
pub open spec fn step_adds<T, A, F: Fn(T, A) -> T>(
    step: F,
    plus: spec_fn(T, T) -> T,
    f: spec_fn(A) -> T,
) -> bool {
    forall|v: T, x: A, w: T| #[trigger] call_ensures(step, (v, x), w) ==> w == plus(v, f(x))
}

/// A fold of a `step` that adds `f` of each item ends at the start plus the
/// sum of `f` over the items.
pub proof fn lemma_fold_is_sum<T, A, F: Fn(T, A) -> T>(
    step: F,
    plus: spec_fn(T, T) -> T,
    neg: spec_fn(T) -> T,
    e: T,
    f: spec_fn(A) -> T,
    init: T,
    items: Seq<A>,
    partials: Seq<T>,
)
    requires
        abelian_group(plus, neg, e),
        step_adds(step, plus, f),
        fold_trace(step, init, items, partials),
    ensures
        partials.last() == plus(init, group_sum(plus, e, items.map_values(f))),
{
    lemma_fold_is_sum_upto(step, plus, neg, e, f, init, items, partials, items.len() as int);
    assert(items.take(items.len() as int) =~= items);
}

proof fn lemma_fold_is_sum_upto<T, A, F: Fn(T, A) -> T>(
    step: F,
    plus: spec_fn(T, T) -> T,
    neg: spec_fn(T) -> T,
    e: T,
    f: spec_fn(A) -> T,
    init: T,
    items: Seq<A>,
    partials: Seq<T>,
    n: int,
)
    requires
        abelian_group(plus, neg, e),
        step_adds(step, plus, f),
        fold_trace(step, init, items, partials),
        0 <= n <= items.len(),
    ensures
        partials[n] == plus(init, group_sum(plus, e, items.take(n).map_values(f))),
    decreases n,
{
    if n == 0 {
        assert(items.take(0).map_values(f) =~= Seq::<T>::empty());
        lemma_identity_inverse(plus, neg, e, init);
    } else {
        lemma_fold_is_sum_upto(step, plus, neg, e, f, init, items, partials, n - 1);
        let m = n - 1;
        assert(call_ensures(step, (partials[m], items[m]), partials[m + 1]));
        let prev = items.take(m).map_values(f);
        let cur = items.take(n).map_values(f);
        assert(cur.drop_last() =~= prev);
        assert(cur.last() == f(items[m]));
        let s = group_sum(plus, e, prev);
        lemma_assoc(plus, neg, e, init, s, f(items[m]));
    }
}

/// Regrouping six terms: (a + b) + (c + d) + (g + h) = (a + c + g) + (b + d + h).
pub proof fn lemma_regroup_pairs<T>(
    plus: spec_fn(T, T) -> T,
    neg: spec_fn(T) -> T,
    e: T,
    a: T,
    b: T,
    c: T,
    d: T,
    g: T,
    h: T,
)
    requires
        abelian_group(plus, neg, e),
    ensures
        plus(plus(plus(a, b), plus(c, d)), plus(g, h)) == plus(plus(plus(a, c), g), plus(plus(b, d), h)),
{
    lemma_swap_middle(plus, neg, e, a, b, c, d);
    lemma_swap_middle(plus, neg, e, plus(a, c), plus(b, d), g, h);
}

/// (a + b) + (c + d) = (a + c) + (b + d).
proof fn lemma_swap_middle<T>(
    plus: spec_fn(T, T) -> T,
    neg: spec_fn(T) -> T,
    e: T,
    a: T,
    b: T,
    c: T,
    d: T,
)
    requires
        abelian_group(plus, neg, e),
    ensures
        plus(plus(a, b), plus(c, d)) == plus(plus(a, c), plus(b, d)),
{
    lemma_assoc(plus, neg, e, a, b, plus(c, d));
    lemma_assoc(plus, neg, e, b, c, d);
    lemma_comm(plus, neg, e, b, c);
    lemma_assoc(plus, neg, e, c, b, d);
    lemma_assoc(plus, neg, e, a, c, plus(b, d));
}

/// A cyclic sum of differences vanishes: (x - y) + (y - z) + (z - x) = e.
pub proof fn lemma_cyclic_differences<T>(
    plus: spec_fn(T, T) -> T,
    neg: spec_fn(T) -> T,
    e: T,
    x: T,
    y: T,
    z: T,
)
    requires
        abelian_group(plus, neg, e),
    ensures
        plus(plus(plus(x, neg(y)), plus(y, neg(z))), plus(z, neg(x))) == e,
{
    lemma_regroup_pairs(plus, neg, e, x, neg(y), y, neg(z), z, neg(x));
    lemma_rotate_three(plus, neg, e, neg(y), neg(z), neg(x));
    lemma_regroup_pairs(plus, neg, e, x, neg(x), y, neg(y), z, neg(z));
    lemma_identity_inverse(plus, neg, e, x);
    lemma_identity_inverse(plus, neg, e, y);
    lemma_identity_inverse(plus, neg, e, z);
    lemma_identity_inverse(plus, neg, e, e);
}

/// (a + b) + c = (c + a) + b.
proof fn lemma_rotate_three<T>(plus: spec_fn(T, T) -> T, neg: spec_fn(T) -> T, e: T, a: T, b: T, c: T)
    requires
        abelian_group(plus, neg, e),
    ensures
        plus(plus(a, b), c) == plus(plus(c, a), b),
{
    lemma_comm(plus, neg, e, plus(a, b), c);
    lemma_assoc(plus, neg, e, c, a, b);
}

/// Three sums of equal length plus up to the sum of their termwise sums.
pub proof fn lemma_sum_of_three<T>(
    plus: spec_fn(T, T) -> T,
    neg: spec_fn(T) -> T,
    e: T,
    u: Seq<T>,
    v: Seq<T>,
    w: Seq<T>,
)
    requires
        abelian_group(plus, neg, e),
        u.len() == v.len(),
        v.len() == w.len(),
    ensures
        plus(plus(group_sum(plus, e, u), group_sum(plus, e, v)), group_sum(plus, e, w)) == group_sum(
            plus,
            e,
            Seq::new(u.len(), |s: int| plus(plus(u[s], v[s]), w[s])),
        ),
    decreases u.len(),
{
    let total = Seq::new(u.len(), |s: int| plus(plus(u[s], v[s]), w[s]));
    if u.len() == 0 {
        lemma_identity_inverse(plus, neg, e, e);
    } else {
        let (u0, v0, w0) = (u.drop_last(), v.drop_last(), w.drop_last());
        lemma_sum_of_three(plus, neg, e, u0, v0, w0);
        assert(total.drop_last() =~= Seq::new(u0.len(), |s: int| plus(plus(u0[s], v0[s]), w0[s])));
        let (su, sv, sw) = (group_sum(plus, e, u0), group_sum(plus, e, v0), group_sum(plus, e, w0));
        lemma_regroup_pairs(plus, neg, e, su, u.last(), sv, v.last(), sw, w.last());
    }
}

/// A sum of terms that are all `e` is `e`.
pub proof fn lemma_sum_of_identities<T>(
    plus: spec_fn(T, T) -> T,
    neg: spec_fn(T) -> T,
    e: T,
    xs: Seq<T>,
)
    requires
        abelian_group(plus, neg, e),
        forall|s: int| 0 <= s < xs.len() ==> #[trigger] xs[s] == e,
    ensures
        group_sum(plus, e, xs) == e,
    decreases xs.len(),
{
    if xs.len() > 0 {
        lemma_sum_of_identities(plus, neg, e, xs.drop_last());
        assert(xs.last() == e);
        lemma_identity_inverse(plus, neg, e, e);
    }
}

/// `plus`, `neg`, `e`, `times` and `one` make the values a ring: an abelian
/// group under `plus` in which `times` is associative, distributes over
/// `plus` on both sides, has `one` as a left identity and is annihilated
/// by `e`.
#[verifier::opaque]
pub open spec fn ring<T>(
    plus: spec_fn(T, T) -> T,
    neg: spec_fn(T) -> T,
    e: T,
    times: spec_fn(T, T) -> T,
    one: T,
) -> bool {
    &&& abelian_group(plus, neg, e)
    &&& forall|a: T, b: T, c: T| #[trigger] times(times(a, b), c) == times(a, times(b, c))
    &&& forall|a: T, b: T, c: T| #[trigger] times(a, plus(b, c)) == plus(times(a, b), times(a, c))
    &&& forall|a: T, b: T, c: T| #[trigger] times(plus(a, b), c) == plus(times(a, c), times(b, c))
    &&& forall|a: T| #[trigger] times(one, a) == a
    &&& forall|a: T| #[trigger] times(e, a) == e
    &&& forall|a: T| #[trigger] times(a, e) == e
}

/// The additive part of a ring is an abelian group.
pub proof fn lemma_ring_group<T>(
    plus: spec_fn(T, T) -> T,
    neg: spec_fn(T) -> T,
    e: T,
    times: spec_fn(T, T) -> T,
    one: T,
)
    requires
        ring(plus, neg, e, times, one),
    ensures
        abelian_group(plus, neg, e),
{
    reveal(ring);
}

/// The multiplicative laws of a ring, at given values.
pub proof fn lemma_ring_times<T>(
    plus: spec_fn(T, T) -> T,
    neg: spec_fn(T) -> T,
    e: T,
    times: spec_fn(T, T) -> T,
    one: T,
    a: T,
    b: T,
    c: T,
)
    requires
        ring(plus, neg, e, times, one),
    ensures
        times(times(a, b), c) == times(a, times(b, c)),
        times(a, plus(b, c)) == plus(times(a, b), times(a, c)),
        times(plus(a, b), c) == plus(times(a, c), times(b, c)),
        times(one, a) == a,
        times(e, a) == e,
        times(a, e) == e,
{
    reveal(ring);
}

/// Two sums of equal length add up to the sum of their termwise sums.
pub proof fn lemma_sum_of_two<T>(
    plus: spec_fn(T, T) -> T,
    neg: spec_fn(T) -> T,
    e: T,
    u: Seq<T>,
    v: Seq<T>,
)
    requires
        abelian_group(plus, neg, e),
        u.len() == v.len(),
    ensures
        plus(group_sum(plus, e, u), group_sum(plus, e, v)) == group_sum(
            plus,
            e,
            Seq::new(u.len(), |s: int| plus(u[s], v[s])),
        ),
    decreases u.len(),
{
    let total = Seq::new(u.len(), |s: int| plus(u[s], v[s]));
    if u.len() == 0 {
        lemma_identity_inverse(plus, neg, e, e);
    } else {
        let (u0, v0) = (u.drop_last(), v.drop_last());
        lemma_sum_of_two(plus, neg, e, u0, v0);
        assert(total.drop_last() =~= Seq::new(u0.len(), |s: int| plus(u0[s], v0[s])));
        lemma_swap_middle(plus, neg, e, group_sum(plus, e, u0), u.last(), group_sum(plus, e, v0), v.last());
    }
}

/// Multiplying a sum on the left multiplies each term:
/// a (x_0 + ... + x_n) = a x_0 + ... + a x_n.
pub proof fn lemma_times_sum_left<T>(
    plus: spec_fn(T, T) -> T,
    neg: spec_fn(T) -> T,
    e: T,
    times: spec_fn(T, T) -> T,
    one: T,
    a: T,
    xs: Seq<T>,
)
    requires
        ring(plus, neg, e, times, one),
    ensures
        times(a, group_sum(plus, e, xs)) == group_sum(
            plus,
            e,
            Seq::new(xs.len(), |s: int| times(a, xs[s])),
        ),
    decreases xs.len(),
{
    let ys = Seq::new(xs.len(), |s: int| times(a, xs[s]));
    if xs.len() == 0 {
        lemma_ring_times(plus, neg, e, times, one, a, e, e);
    } else {
        let x0 = xs.drop_last();
        lemma_times_sum_left(plus, neg, e, times, one, a, x0);
        assert(ys.drop_last() =~= Seq::new(x0.len(), |s: int| times(a, x0[s])));
        lemma_ring_times(plus, neg, e, times, one, a, group_sum(plus, e, x0), xs.last());
    }
}

/// Multiplying a sum on the right multiplies each term:
/// (x_0 + ... + x_n) c = x_0 c + ... + x_n c.
pub proof fn lemma_times_sum_right<T>(
    plus: spec_fn(T, T) -> T,
    neg: spec_fn(T) -> T,
    e: T,
    times: spec_fn(T, T) -> T,
    one: T,
    xs: Seq<T>,
    c: T,
)
    requires
        ring(plus, neg, e, times, one),
    ensures
        times(group_sum(plus, e, xs), c) == group_sum(
            plus,
            e,
            Seq::new(xs.len(), |s: int| times(xs[s], c)),
        ),
    decreases xs.len(),
{
    let ys = Seq::new(xs.len(), |s: int| times(xs[s], c));
    if xs.len() == 0 {
        lemma_ring_times(plus, neg, e, times, one, c, e, e);
    } else {
        let x0 = xs.drop_last();
        lemma_times_sum_right(plus, neg, e, times, one, x0, c);
        assert(ys.drop_last() =~= Seq::new(x0.len(), |s: int| times(x0[s], c)));
        lemma_ring_times(plus, neg, e, times, one, group_sum(plus, e, x0), xs.last(), c);
    }
}

/// The sum of the row sums of an `n` × `m` array is the sum of its column sums.
pub proof fn lemma_double_sum_swap<T>(
    plus: spec_fn(T, T) -> T,
    neg: spec_fn(T) -> T,
    e: T,
    x: spec_fn(int, int) -> T,
    n: nat,
    m: nat,
)
    requires
        abelian_group(plus, neg, e),
    ensures
        group_sum(plus, e, Seq::new(n, |a: int| group_sum(plus, e, Seq::new(m, |k: int| x(a, k)))))
            == group_sum(
            plus,
            e,
            Seq::new(m, |k: int| group_sum(plus, e, Seq::new(n, |a: int| x(a, k)))),
        ),
    decreases n,
{
    let rows = Seq::new(n, |a: int| group_sum(plus, e, Seq::new(m, |k: int| x(a, k))));
    let cols = Seq::new(m, |k: int| group_sum(plus, e, Seq::new(n, |a: int| x(a, k))));
    if n == 0 {
        let zeros = Seq::new(m, |k: int| e);
        assert forall|k: int| 0 <= k < m implies #[trigger] cols[k] == zeros[k] by {
            assert(Seq::new(n, |a: int| x(a, k)) =~= Seq::<T>::empty());
        }
        assert(cols =~= zeros);
        lemma_sum_of_identities(plus, neg, e, zeros);
    } else {
        let n0 = (n - 1) as nat;
        lemma_double_sum_swap(plus, neg, e, x, n0, m);
        let rows0 = Seq::new(n0, |a: int| group_sum(plus, e, Seq::new(m, |k: int| x(a, k))));
        let cols0 = Seq::new(m, |k: int| group_sum(plus, e, Seq::new(n0, |a: int| x(a, k))));
        let last = Seq::new(m, |k: int| x(n0 as int, k));
        assert(rows.drop_last() =~= rows0);
        lemma_sum_of_two(plus, neg, e, cols0, last);
        assert forall|k: int| 0 <= k < m implies #[trigger] cols[k] == plus(cols0[k], last[k]) by {
            assert(Seq::new(n, |a: int| x(a, k)).drop_last() =~= Seq::new(n0, |a: int| x(a, k)));
        }
        assert(cols =~= Seq::new(cols0.len(), |s: int| plus(cols0[s], last[s])));
    }
}

/// A sum whose terms are all `e` but the one at `i` is that term.
pub proof fn lemma_sum_single<T>(
    plus: spec_fn(T, T) -> T,
    neg: spec_fn(T) -> T,
    e: T,
    xs: Seq<T>,
    i: int,
)
    requires
        abelian_group(plus, neg, e),
        0 <= i < xs.len(),
        forall|s: int| 0 <= s < xs.len() && s != i ==> #[trigger] xs[s] == e,
    ensures
        group_sum(plus, e, xs) == xs[i],
    decreases xs.len(),
{
    let x0 = xs.drop_last();
    if i == xs.len() - 1 {
        lemma_sum_of_identities(plus, neg, e, x0);
        lemma_identity_inverse(plus, neg, e, xs[i]);
        lemma_comm(plus, neg, e, e, xs[i]);
    } else {
        lemma_sum_single(plus, neg, e, x0, i);
        lemma_identity_inverse(plus, neg, e, xs[i]);
    }
}

/// A fold of a `step` that adds `f` of each item, where `f` of every item is
/// `e`, ends where it started.
pub proof fn lemma_fold_adds_nothing<T, A, F: Fn(T, A) -> T>(
    step: F,
    plus: spec_fn(T, T) -> T,
    neg: spec_fn(T) -> T,
    e: T,
    f: spec_fn(A) -> T,
    init: T,
    items: Seq<A>,
    total: T,
)
    requires
        abelian_group(plus, neg, e),
        step_adds(step, plus, f),
        forall|n: int| 0 <= n < items.len() ==> f(#[trigger] items[n]) == e,
        folds_to(step, init, items, total),
    ensures
        total == init,
{
    let p = choose|p: Seq<T>| #[trigger] fold_trace(step, init, items, p) && p.last() == total;
    lemma_fold_is_sum(step, plus, neg, e, f, init, items, p);
    let terms = items.map_values(f);
    assert forall|s: int| 0 <= s < terms.len() implies #[trigger] terms[s] == e by {
        assert(f(items[s]) == e);
    }
    lemma_sum_of_identities(plus, neg, e, terms);
    lemma_identity_inverse(plus, neg, e, init);
}

/// The negation of the identity is the identity.
pub proof fn lemma_neg_identity<T>(plus: spec_fn(T, T) -> T, neg: spec_fn(T) -> T, e: T)
    requires
        abelian_group(plus, neg, e),
    ensures
        neg(e) == e,
{
    lemma_identity_inverse(plus, neg, e, e);
    lemma_comm(plus, neg, e, e, neg(e));
    lemma_identity_inverse(plus, neg, e, neg(e));
}

/// A value that adds up with `x` to `e` is the inverse of `x`.
pub proof fn lemma_neg_unique<T>(plus: spec_fn(T, T) -> T, neg: spec_fn(T) -> T, e: T, x: T, y: T)
    requires
        abelian_group(plus, neg, e),
        plus(x, y) == e,
    ensures
        y == neg(x),
{
    lemma_identity_inverse(plus, neg, e, y);
    lemma_identity_inverse(plus, neg, e, x);
    lemma_assoc(plus, neg, e, y, x, neg(x));
    lemma_comm(plus, neg, e, y, x);
    lemma_comm(plus, neg, e, e, neg(x));
    lemma_identity_inverse(plus, neg, e, neg(x));
}

/// -b + -c = -(b + c).
pub proof fn lemma_neg_plus<T>(plus: spec_fn(T, T) -> T, neg: spec_fn(T) -> T, e: T, b: T, c: T)
    requires
        abelian_group(plus, neg, e),
    ensures
        plus(neg(b), neg(c)) == neg(plus(b, c)),
{
    let nb = neg(b);
    let nc = neg(c);
    lemma_assoc(plus, neg, e, b, c, plus(nb, nc));
    lemma_comm(plus, neg, e, nb, nc);
    lemma_assoc(plus, neg, e, c, nc, nb);
    lemma_identity_inverse(plus, neg, e, c);
    lemma_comm(plus, neg, e, e, nb);
    lemma_identity_inverse(plus, neg, e, nb);
    lemma_identity_inverse(plus, neg, e, b);
    lemma_neg_unique(plus, neg, e, plus(b, c), plus(nb, nc));
}

/// The sum of the negated terms is the negated sum.
pub proof fn lemma_sum_neg<T>(plus: spec_fn(T, T) -> T, neg: spec_fn(T) -> T, e: T, xs: Seq<T>)
    requires
        abelian_group(plus, neg, e),
    ensures
        group_sum(plus, e, Seq::new(xs.len(), |s: int| neg(xs[s]))) == neg(group_sum(plus, e, xs)),
{
    let ns = Seq::new(xs.len(), |s: int| neg(xs[s]));
    lemma_sum_of_two(plus, neg, e, xs, ns);
    let pairs = Seq::new(xs.len(), |s: int| plus(xs[s], ns[s]));
    assert forall|s: int| 0 <= s < pairs.len() implies #[trigger] pairs[s] == e by {
        lemma_identity_inverse(plus, neg, e, xs[s]);
    }
    lemma_sum_of_identities(plus, neg, e, pairs);
    lemma_neg_unique(plus, neg, e, group_sum(plus, e, xs), group_sum(plus, e, ns));
}

/// The sum of a concatenation is the sum of the two sums.
pub proof fn lemma_sum_concat<T>(plus: spec_fn(T, T) -> T, neg: spec_fn(T) -> T, e: T, xs: Seq<T>, ys: Seq<T>)
    requires
        abelian_group(plus, neg, e),
    ensures
        group_sum(plus, e, xs + ys) == plus(group_sum(plus, e, xs), group_sum(plus, e, ys)),
    decreases ys.len(),
{
    if ys.len() == 0 {
        assert(xs + ys =~= xs);
        lemma_identity_inverse(plus, neg, e, group_sum(plus, e, xs));
    } else {
        let y0 = ys.drop_last();
        lemma_sum_concat(plus, neg, e, xs, y0);
        assert((xs + ys).drop_last() =~= xs + y0);
        assert((xs + ys).last() == ys.last());
        lemma_assoc(plus, neg, e, group_sum(plus, e, xs), group_sum(plus, e, y0), ys.last());
    }
}

/// Summing an `n` × `m` array stored row by row is summing its row sums.
pub proof fn lemma_flat_double_sum<T>(
    plus: spec_fn(T, T) -> T,
    neg: spec_fn(T) -> T,
    e: T,
    x: spec_fn(int, int) -> T,
    n: nat,
    m: nat,
)
    requires
        abelian_group(plus, neg, e),
    ensures
        group_sum(plus, e, Seq::new(n * m, |o: int| x(o / (m as int), o % (m as int)))) == group_sum(
            plus,
            e,
            Seq::new(n, |a: int| group_sum(plus, e, Seq::new(m, |b: int| x(a, b)))),
        ),
    decreases n,
{
    let flat = Seq::new(n * m, |o: int| x(o / (m as int), o % (m as int)));
    let rows = Seq::new(n, |a: int| group_sum(plus, e, Seq::new(m, |b: int| x(a, b))));
    if n == 0 {
        assert(n * m == 0) by (nonlinear_arith)
            requires
                n == 0,
        ;
        assert(flat =~= Seq::<T>::empty());
        assert(rows =~= Seq::<T>::empty());
    } else {
        let n0 = (n - 1) as nat;
        lemma_flat_double_sum(plus, neg, e, x, n0, m);
        let flat0 = Seq::new(n0 * m, |o: int| x(o / (m as int), o % (m as int)));
        let row = Seq::new(m, |b: int| x(n0 as int, b));
        assert(n * m == n0 * m + m) by (nonlinear_arith)
            requires
                n0 == n - 1,
        ;
        assert forall|o: int| 0 <= o < flat.len() implies #[trigger] flat[o] == (flat0 + row)[o] by {
            if o >= n0 * m {
                let b = o - n0 * m;
                lemma_fundamental_div_mod_converse(o, m as int, n0 as int, b);
            }
        }
        assert(flat =~= flat0 + row);
        lemma_sum_concat(plus, neg, e, flat0, row);
        assert(rows.drop_last() =~= Seq::new(n0, |a: int| group_sum(plus, e, Seq::new(m, |b: int| x(a, b)))));
    }
}

/// A fold of a `step` that adds `f` of each item ends at the start plus the
/// sum of `f` over the items.
pub proof fn lemma_folds_to_sum<T, A, F: Fn(T, A) -> T>(
    step: F,
    plus: spec_fn(T, T) -> T,
    neg: spec_fn(T) -> T,
    e: T,
    f: spec_fn(A) -> T,
    init: T,
    items: Seq<A>,
    total: T,
)
    requires
        abelian_group(plus, neg, e),
        step_adds(step, plus, f),
        folds_to(step, init, items, total),
    ensures
        total == plus(init, group_sum(plus, e, items.map_values(f))),
{
    let p = choose|p: Seq<T>| #[trigger] fold_trace(step, init, items, p) && p.last() == total;
    lemma_fold_is_sum(step, plus, neg, e, f, init, items, p);
}

/// e + x = x.
pub proof fn lemma_identity_left<T>(plus: spec_fn(T, T) -> T, neg: spec_fn(T) -> T, e: T, x: T)
    requires
        abelian_group(plus, neg, e),
    ensures
        plus(e, x) == x,
{
    lemma_comm(plus, neg, e, e, x);
    lemma_identity_inverse(plus, neg, e, x);
}

/// Two double sums over the same array shape add up termwise.
pub proof fn lemma_double_sum_of_two<T>(
    plus: spec_fn(T, T) -> T,
    neg: spec_fn(T) -> T,
    e: T,
    x: spec_fn(int, int) -> T,
    y: spec_fn(int, int) -> T,
    n: nat,
    m: nat,
)
    requires
        abelian_group(plus, neg, e),
    ensures
        plus(
            group_sum(plus, e, Seq::new(n, |a: int| group_sum(plus, e, Seq::new(m, |b: int| x(a, b))))),
            group_sum(plus, e, Seq::new(n, |a: int| group_sum(plus, e, Seq::new(m, |b: int| y(a, b))))),
        ) == group_sum(
            plus,
            e,
            Seq::new(n, |a: int| group_sum(plus, e, Seq::new(m, |b: int| plus(x(a, b), y(a, b))))),
        ),
{
    let xs = Seq::new(n, |a: int| group_sum(plus, e, Seq::new(m, |b: int| x(a, b))));
    let ys = Seq::new(n, |a: int| group_sum(plus, e, Seq::new(m, |b: int| y(a, b))));
    lemma_sum_of_two(plus, neg, e, xs, ys);
    assert forall|a: int| 0 <= a < n implies #[trigger] plus(xs[a], ys[a]) == group_sum(
        plus,
        e,
        Seq::new(m, |b: int| plus(x(a, b), y(a, b))),
    ) by {
        let u = Seq::new(m, |b: int| x(a, b));
        let v = Seq::new(m, |b: int| y(a, b));
        lemma_sum_of_two(plus, neg, e, u, v);
        assert(Seq::new(u.len(), |s: int| plus(u[s], v[s])) =~= Seq::new(m, |b: int| plus(x(a, b), y(a, b))));
    }
    assert(Seq::new(xs.len(), |s: int| plus(xs[s], ys[s])) =~= Seq::new(
        n,
        |a: int| group_sum(plus, e, Seq::new(m, |b: int| plus(x(a, b), y(a, b)))),
    ));
}

/// Negating every term of a double sum negates it.
pub proof fn lemma_double_sum_neg<T>(
    plus: spec_fn(T, T) -> T,
    neg: spec_fn(T) -> T,
    e: T,
    x: spec_fn(int, int) -> T,
    n: nat,
    m: nat,
)
    requires
        abelian_group(plus, neg, e),
    ensures
        group_sum(plus, e, Seq::new(n, |a: int| group_sum(plus, e, Seq::new(m, |b: int| neg(x(a, b))))))
            == neg(group_sum(plus, e, Seq::new(n, |a: int| group_sum(plus, e, Seq::new(m, |b: int| x(a, b)))))),
{
    let rows = Seq::new(n, |a: int| group_sum(plus, e, Seq::new(m, |b: int| x(a, b))));
    let nrows = Seq::new(n, |a: int| group_sum(plus, e, Seq::new(m, |b: int| neg(x(a, b)))));
    assert forall|a: int| 0 <= a < n implies #[trigger] nrows[a] == neg(rows[a]) by {
        let u = Seq::new(m, |b: int| x(a, b));
        lemma_sum_neg(plus, neg, e, u);
        assert(Seq::new(u.len(), |s: int| neg(u[s])) =~= Seq::new(m, |b: int| neg(x(a, b))));
    }
    lemma_sum_neg(plus, neg, e, rows);
    assert(Seq::new(rows.len(), |s: int| neg(rows[s])) =~= nrows);
}

/// (p + s) + (q - s) = p + q.
pub proof fn lemma_cancel_across<T>(plus: spec_fn(T, T) -> T, neg: spec_fn(T) -> T, e: T, p: T, q: T, s: T)
    requires
        abelian_group(plus, neg, e),
    ensures
        plus(plus(p, s), plus(q, neg(s))) == plus(p, q),
        plus(plus(p, neg(s)), plus(q, s)) == plus(p, q),
{
    lemma_identity_inverse(plus, neg, e, s);
    lemma_assoc(plus, neg, e, p, s, plus(q, neg(s)));
    lemma_comm(plus, neg, e, q, neg(s));
    lemma_assoc(plus, neg, e, s, neg(s), q);
    lemma_identity_left(plus, neg, e, q);
    lemma_assoc(plus, neg, e, p, neg(s), plus(q, s));
    lemma_comm(plus, neg, e, q, s);
    lemma_assoc(plus, neg, e, neg(s), s, q);
    lemma_comm(plus, neg, e, neg(s), s);
}

/// (-a) b = -(a b) and a (-b) = -(a b).
pub proof fn lemma_times_neg<T>(
    plus: spec_fn(T, T) -> T,
    neg: spec_fn(T) -> T,
    e: T,
    times: spec_fn(T, T) -> T,
    one: T,
    a: T,
    b: T,
)
    requires
        ring(plus, neg, e, times, one),
    ensures
        times(neg(a), b) == neg(times(a, b)),
        times(a, neg(b)) == neg(times(a, b)),
{
    lemma_ring_group(plus, neg, e, times, one);
    lemma_ring_times(plus, neg, e, times, one, a, neg(a), b);
    lemma_ring_times(plus, neg, e, times, one, a, b, neg(b));
    lemma_identity_inverse(plus, neg, e, a);
    lemma_identity_inverse(plus, neg, e, b);
    lemma_ring_times(plus, neg, e, times, one, b, b, b);
    lemma_ring_times(plus, neg, e, times, one, a, a, a);
    lemma_neg_unique(plus, neg, e, times(a, b), times(neg(a), b));
    lemma_neg_unique(plus, neg, e, times(a, b), times(a, neg(b)));
}

} // verus!

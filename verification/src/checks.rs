//! Exhaustive checks over index tuples and components: whether a test
//! holds at every index pair, triple or quadruple below a dimension, or of
//! every component of a list. The tensor symmetry checks are built on these.
use vstd::prelude::*;

verus! {

/// The test `pred` answered true at (i, j).
pub open spec fn holds2<P: Fn(usize, usize) -> bool>(pred: P, i: usize, j: usize) -> bool {
    call_ensures(pred, (i, j), true)
}

/// The test `pred` answered false at (i, j).
pub open spec fn fails2<P: Fn(usize, usize) -> bool>(pred: P, i: usize, j: usize) -> bool {
    call_ensures(pred, (i, j), false)
}

/// The test `pred` answered true at (i, j, k).
pub open spec fn holds3<P: Fn(usize, usize, usize) -> bool>(
    pred: P,
    i: usize,
    j: usize,
    k: usize,
) -> bool {
    call_ensures(pred, (i, j, k), true)
}

/// The test `pred` answered false at (i, j, k).
pub open spec fn fails3<P: Fn(usize, usize, usize) -> bool>(
    pred: P,
    i: usize,
    j: usize,
    k: usize,
) -> bool {
    call_ensures(pred, (i, j, k), false)
}

/// The test `pred` answered true at (i, j, k, l).
pub open spec fn holds4<P: Fn(usize, usize, usize, usize) -> bool>(
    pred: P,
    i: usize,
    j: usize,
    k: usize,
    l: usize,
) -> bool {
    call_ensures(pred, (i, j, k, l), true)
}

/// The test `pred` answered false at (i, j, k, l).
pub open spec fn fails4<P: Fn(usize, usize, usize, usize) -> bool>(
    pred: P,
    i: usize,
    j: usize,
    k: usize,
    l: usize,
) -> bool {
    call_ensures(pred, (i, j, k, l), false)
}

/// Whether `pred` holds at every pair (i, j) with both below `dim`; the
/// pairs are tried row by row and the first failure ends the search.
pub fn all_pairs<P: Fn(usize, usize) -> bool>(dim: usize, pred: P) -> (b: bool)
    requires
        forall|i: usize, j: usize| i < dim && j < dim ==> call_requires(pred, (i, j)),
    ensures
        b ==> forall|i: usize, j: usize| i < dim && j < dim ==> #[trigger] holds2(pred, i, j),
        !b ==> exists|i: usize, j: usize| i < dim && j < dim && #[trigger] fails2(pred, i, j),
{
    let mut i: usize = 0;
    while i < dim
        invariant
            i <= dim,
            forall|x: usize, y: usize| x < dim && y < dim ==> call_requires(pred, (x, y)),
            forall|a: usize, c: usize| a < i && c < dim ==> #[trigger] holds2(pred, a, c),
        decreases dim - i,
    {
        let mut j: usize = 0;
        while j < dim
            invariant
                i < dim,
                j <= dim,
                forall|x: usize, y: usize| x < dim && y < dim ==> call_requires(pred, (x, y)),
                forall|a: usize, c: usize| a < i && c < dim ==> #[trigger] holds2(pred, a, c),
                forall|c: usize| c < j ==> #[trigger] holds2(pred, i, c),
            decreases dim - j,
        {
            let ok = pred(i, j);
            if !ok {
                assert(fails2(pred, i, j));
                return false;
            }
            j = j + 1;
        }
        i = i + 1;
    }
    true
}

/// Whether `pred` holds at every triple (i, j, k) with all three below
/// `dim`, tried in row-major order; the first failure ends the search.
pub fn all_triples<P: Fn(usize, usize, usize) -> bool>(dim: usize, pred: P) -> (b: bool)
    requires
        forall|i: usize, j: usize, k: usize|
            i < dim && j < dim && k < dim ==> call_requires(pred, (i, j, k)),
    ensures
        b ==> forall|i: usize, j: usize, k: usize|
            i < dim && j < dim && k < dim ==> #[trigger] holds3(pred, i, j, k),
        !b ==> exists|i: usize, j: usize, k: usize|
            i < dim && j < dim && k < dim && #[trigger] fails3(pred, i, j, k),
{
    let mut i: usize = 0;
    while i < dim
        invariant
            i <= dim,
            forall|x: usize, y: usize, z: usize|
                x < dim && y < dim && z < dim ==> call_requires(pred, (x, y, z)),
            forall|a: usize, c: usize, e: usize|
                a < i && c < dim && e < dim ==> #[trigger] holds3(pred, a, c, e),
        decreases dim - i,
    {
        let mut j: usize = 0;
        while j < dim
            invariant
                i < dim,
                j <= dim,
                forall|x: usize, y: usize, z: usize|
                    x < dim && y < dim && z < dim ==> call_requires(pred, (x, y, z)),
                forall|a: usize, c: usize, e: usize|
                    a < i && c < dim && e < dim ==> #[trigger] holds3(pred, a, c, e),
                forall|c: usize, e: usize| c < j && e < dim ==> #[trigger] holds3(pred, i, c, e),
            decreases dim - j,
        {
            let mut k: usize = 0;
            while k < dim
                invariant
                    i < dim,
                    j < dim,
                    k <= dim,
                    forall|x: usize, y: usize, z: usize|
                        x < dim && y < dim && z < dim ==> call_requires(pred, (x, y, z)),
                    forall|a: usize, c: usize, e: usize|
                        a < i && c < dim && e < dim ==> #[trigger] holds3(pred, a, c, e),
                    forall|c: usize, e: usize|
                        c < j && e < dim ==> #[trigger] holds3(pred, i, c, e),
                    forall|e: usize| e < k ==> #[trigger] holds3(pred, i, j, e),
                decreases dim - k,
            {
                let ok = pred(i, j, k);
                if !ok {
                    assert(fails3(pred, i, j, k));
                    return false;
                }
                k = k + 1;
            }
            j = j + 1;
        }
        i = i + 1;
    }
    true
}

/// Whether `pred` holds at every quadruple (i, j, k, l) with all four below
/// `dim`, tried in row-major order; the first failure ends the search.
pub fn all_quads<P: Fn(usize, usize, usize, usize) -> bool>(dim: usize, pred: P) -> (b: bool)
    requires
        forall|i: usize, j: usize, k: usize, l: usize|
            i < dim && j < dim && k < dim && l < dim ==> call_requires(pred, (i, j, k, l)),
    ensures
        b ==> forall|i: usize, j: usize, k: usize, l: usize|
            i < dim && j < dim && k < dim && l < dim ==> #[trigger] holds4(pred, i, j, k, l),
        !b ==> exists|i: usize, j: usize, k: usize, l: usize|
            i < dim && j < dim && k < dim && l < dim && #[trigger] fails4(pred, i, j, k, l),
{
    let mut i: usize = 0;
    while i < dim
        invariant
            i <= dim,
            forall|x: usize, y: usize, z: usize, w: usize|
                x < dim && y < dim && z < dim && w < dim ==> call_requires(pred, (x, y, z, w)),
            forall|a: usize, c: usize, e: usize, f: usize|
                a < i && c < dim && e < dim && f < dim ==> #[trigger] holds4(pred, a, c, e, f),
        decreases dim - i,
    {
        let mut j: usize = 0;
        while j < dim
            invariant
                i < dim,
                j <= dim,
                forall|x: usize, y: usize, z: usize, w: usize|
                    x < dim && y < dim && z < dim && w < dim ==> call_requires(pred, (x, y, z, w)),
                forall|a: usize, c: usize, e: usize, f: usize|
                    a < i && c < dim && e < dim && f < dim ==> #[trigger] holds4(pred, a, c, e, f),
                forall|c: usize, e: usize, f: usize|
                    c < j && e < dim && f < dim ==> #[trigger] holds4(pred, i, c, e, f),
            decreases dim - j,
        {
            let mut k: usize = 0;
            while k < dim
                invariant
                    i < dim,
                    j < dim,
                    k <= dim,
                    forall|x: usize, y: usize, z: usize, w: usize|
                        x < dim && y < dim && z < dim && w < dim ==> call_requires(
                            pred,
                            (x, y, z, w),
                        ),
                    forall|a: usize, c: usize, e: usize, f: usize|
                        a < i && c < dim && e < dim && f < dim ==> #[trigger] holds4(
                            pred,
                            a,
                            c,
                            e,
                            f,
                        ),
                    forall|c: usize, e: usize, f: usize|
                        c < j && e < dim && f < dim ==> #[trigger] holds4(pred, i, c, e, f),
                    forall|e: usize, f: usize| e < k && f < dim ==> #[trigger] holds4(pred, i, j, e, f),
                decreases dim - k,
            {
                let mut l: usize = 0;
                while l < dim
                    invariant
                        i < dim,
                        j < dim,
                        k < dim,
                        l <= dim,
                        forall|x: usize, y: usize, z: usize, w: usize|
                            x < dim && y < dim && z < dim && w < dim ==> call_requires(
                                pred,
                                (x, y, z, w),
                            ),
                        forall|a: usize, c: usize, e: usize, f: usize|
                            a < i && c < dim && e < dim && f < dim ==> #[trigger] holds4(
                                pred,
                                a,
                                c,
                                e,
                                f,
                            ),
                        forall|c: usize, e: usize, f: usize|
                            c < j && e < dim && f < dim ==> #[trigger] holds4(pred, i, c, e, f),
                        forall|e: usize, f: usize|
                            e < k && f < dim ==> #[trigger] holds4(pred, i, j, e, f),
                        forall|f: usize| f < l ==> #[trigger] holds4(pred, i, j, k, f),
                    decreases dim - l,
                {
                    let ok = pred(i, j, k, l);
                    if !ok {
                        assert(fails4(pred, i, j, k, l));
                        return false;
                    }
                    l = l + 1;
                }
                k = k + 1;
            }
            j = j + 1;
        }
        i = i + 1;
    }
    true
}

/// The test `pred` answered true of the `p`-th entry of `items`.
pub open spec fn holds_at<T, P: Fn(T) -> bool>(pred: P, items: Seq<T>, p: int) -> bool {
    call_ensures(pred, (items[p],), true)
}

/// Whether `pred` holds of every entry of `items`, tried in order; the first
/// failure ends the search.
pub fn all_components<T: Copy, P: Fn(T) -> bool>(items: &Vec<T>, pred: P) -> (b: bool)
    requires
        forall|x: T| call_requires(pred, (x,)),
    ensures
        b ==> forall|p: int| 0 <= p < items@.len() ==> #[trigger] holds_at(pred, items@, p),
        !b ==> exists|p: int|
            0 <= p < items@.len() && call_ensures(pred, (#[trigger] items@[p],), false),
{
    let mut i: usize = 0;
    while i < items.len()
        invariant
            i <= items@.len(),
            forall|x: T| call_requires(pred, (x,)),
            forall|p: int| 0 <= p < i ==> #[trigger] holds_at(pred, items@, p),
        decreases items@.len() - i,
    {
        let ok = pred(items[i]);
        if !ok {
            return false;
        }
        i = i + 1;
    }
    true
}

} // verus!

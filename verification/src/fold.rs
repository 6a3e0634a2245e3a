//! Left folds of caller-supplied arithmetic, stated over the values that the
//! arithmetic is applied to.
use vstd::prelude::*;

verus! {

/// `partials` records a left fold of `step` over `items` starting at `init`:
/// `partials[0]` is `init`, and each next entry is a result that `step`
/// may return on the previous entry and the next item.
pub open spec fn fold_trace<T, A, F: Fn(T, A) -> T>(
    step: F,
    init: T,
    items: Seq<A>,
    partials: Seq<T>,
) -> bool {
    &&& partials.len() == items.len() + 1
    &&& partials[0] == init
    &&& forall|i: int|
        #![trigger items[i]]
        0 <= i < items.len() ==> call_ensures(step, (partials[i], items[i]), partials[i + 1])
}

/// `total` is a result of folding `step` over `items` from the left,
/// starting at `init`.
pub open spec fn folds_to<T, A, F: Fn(T, A) -> T>(step: F, init: T, items: Seq<A>, total: T) -> bool {
    exists|partials: Seq<T>| #[trigger] fold_trace(step, init, items, partials) && partials.last() == total
}

/// Extending a fold by one more item.
pub proof fn lemma_fold_trace_push<T, A, F: Fn(T, A) -> T>(
    step: F,
    init: T,
    items: Seq<A>,
    partials: Seq<T>,
    item: A,
    next: T,
)
    requires
        fold_trace(step, init, items, partials),
        call_ensures(step, (partials.last(), item), next),
    ensures
        fold_trace(step, init, items.push(item), partials.push(next)),
{
    let items2 = items.push(item);
    let partials2 = partials.push(next);
    assert forall|i: int| #![trigger items2[i]] 0 <= i < items2.len() implies call_ensures(
        step,
        (partials2[i], items2[i]),
        partials2[i + 1],
    ) by {
        if i < items.len() {
            assert(items2[i] == items[i]);
        }
    }
}


/// `step` carries `neg` over: on a start `neg`-related and an item
/// `flip`-related to another call's, it answers `neg` of that call's answer.
pub open spec fn step_mirrors<T, A, F: Fn(T, A) -> T>(
    step: F,
    neg: spec_fn(T) -> T,
    flip: spec_fn(A) -> A,
) -> bool {
    forall|v: T, x: A, w: T, y: T|
        #![trigger call_ensures(step, (v, x), w), call_ensures(step, (neg(v), flip(x)), y)]
        call_ensures(step, (v, x), w) && call_ensures(step, (neg(v), flip(x)), y) ==> y == neg(w)
}

/// Two folds of the same `step` whose items correspond under `flip` and whose
/// starting values correspond under `neg` stay in correspondence, when `step`
/// carries the correspondence over: every partial result of the second fold
/// is `neg` of the partial result of the first. With `neg` and `flip` the
/// identity this says that a fold of a `step` that answers alike on alike
/// arguments is determined by its start and its items.
pub proof fn lemma_fold_trace_mirror<T, A, F: Fn(T, A) -> T>(
    step: F,
    init1: T,
    items1: Seq<A>,
    partials1: Seq<T>,
    init2: T,
    items2: Seq<A>,
    partials2: Seq<T>,
    neg: spec_fn(T) -> T,
    flip: spec_fn(A) -> A,
)
    requires
        fold_trace(step, init1, items1, partials1),
        fold_trace(step, init2, items2, partials2),
        items1.len() == items2.len(),
        forall|n: int| 0 <= n < items1.len() ==> #[trigger] items2[n] == flip(items1[n]),
        init2 == neg(init1),
        step_mirrors(step, neg, flip),
    ensures
        forall|n: int| 0 <= n <= items1.len() ==> #[trigger] partials2[n] == neg(partials1[n]),
        partials2.last() == neg(partials1.last()),
{
    assert forall|n: int| 0 <= n <= items1.len() implies #[trigger] partials2[n] == neg(
        partials1[n],
    ) by {
        lemma_fold_trace_mirror_upto(step, init1, items1, partials1, init2, items2, partials2, neg, flip, n);
    }
    assert(partials2[items1.len() as int] == neg(partials1[items1.len() as int]));
}

proof fn lemma_fold_trace_mirror_upto<T, A, F: Fn(T, A) -> T>(
    step: F,
    init1: T,
    items1: Seq<A>,
    partials1: Seq<T>,
    init2: T,
    items2: Seq<A>,
    partials2: Seq<T>,
    neg: spec_fn(T) -> T,
    flip: spec_fn(A) -> A,
    n: int,
)
    requires
        fold_trace(step, init1, items1, partials1),
        fold_trace(step, init2, items2, partials2),
        items1.len() == items2.len(),
        forall|m: int| 0 <= m < items1.len() ==> #[trigger] items2[m] == flip(items1[m]),
        init2 == neg(init1),
        step_mirrors(step, neg, flip),
        0 <= n <= items1.len(),
    ensures
        partials2[n] == neg(partials1[n]),
    decreases n,
{
    if n > 0 {
        lemma_fold_trace_mirror_upto(step, init1, items1, partials1, init2, items2, partials2, neg, flip, n - 1);
        let m = n - 1;
        assert(call_ensures(step, (partials1[m], items1[m]), partials1[m + 1]));
        assert(call_ensures(step, (partials2[m], items2[m]), partials2[m + 1]));
        assert(items2[m] == flip(items1[m]));
    }
}

} // verus!

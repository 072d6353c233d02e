//! Searching a range of positions, and gathering results that may fail.

use vstd::prelude::*;

verus! {

/// The positions below `n` at which `p` holds, in ascending order.
pub open spec fn positions(n: int, p: spec_fn(int) -> bool) -> Seq<usize>
    decreases n,
{
    if n <= 0 {
        Seq::empty()
    } else if p(n - 1) {
        positions(n - 1, p).push((n - 1) as usize)
    } else {
        positions(n - 1, p)
    }
}

/// `j` is the least position from `lo` up to `hi` at which `p` holds.
pub open spec fn is_least(lo: int, hi: int, p: spec_fn(int) -> bool, j: int) -> bool {
    &&& lo <= j < hi
    &&& p(j)
    &&& forall|k: int| lo <= k < j ==> !#[trigger] p(k)
}

/// The least position from `lo` up to `hi` at which `p` holds, if there is one.
pub open spec fn least(lo: int, hi: int, p: spec_fn(int) -> bool) -> Option<int> {
    if exists|j: int| is_least(lo, hi, p, j) {
        Some(choose|j: int| is_least(lo, hi, p, j))
    } else {
        None
    }
}

/// `j` is the greatest position below `n` at which `p` holds.
pub open spec fn is_greatest(n: int, p: spec_fn(int) -> bool, j: int) -> bool {
    &&& 0 <= j < n
    &&& p(j)
    &&& forall|k: int| j < k < n ==> !#[trigger] p(k)
}

/// The greatest position below `n` at which `p` holds, if there is one.
pub open spec fn greatest(n: int, p: spec_fn(int) -> bool) -> Option<int> {
    if exists|j: int| is_greatest(n, p, j) {
        Some(choose|j: int| is_greatest(n, p, j))
    } else {
        None
    }
}

/// The values of `items` if all are `Ok`, else the first fault among them.
pub open spec fn collect<T, E>(items: Seq<Result<T, E>>) -> Result<Seq<T>, E>
    decreases items.len(),
{
    if items.len() == 0 {
        Ok(Seq::empty())
    } else {
        match collect(items.drop_last()) {
            Err(e) => Err(e),
            Ok(done) => match items.last() {
                Err(e) => Err(e),
                Ok(x) => Ok(done.push(x)),
            },
        }
    }
}

/// A result with its value, or its fault, seen through `deep_view`.
pub open spec fn result_model<T: DeepView, E: DeepView>(r: Result<T, E>) -> Result<T::V, E::V> {
    match r {
        Ok(x) => Ok(x.deep_view()),
        Err(e) => Err(e.deep_view()),
    }
}

/// Positions at which `p` fails add nothing.
pub proof fn lemma_positions_gap(a: int, b: int, p: spec_fn(int) -> bool)
    requires
        a <= b,
        forall|j: int| a <= j < b ==> !#[trigger] p(j),
    ensures
        positions(b, p) == positions(a, p),
    decreases b - a,
{
    if a < b {
        lemma_positions_gap(a, b - 1, p);
    }
}

/// Nothing lies below the first position.
pub proof fn lemma_positions_none(n: int, p: spec_fn(int) -> bool)
    requires
        forall|j: int| 0 <= j < n ==> !#[trigger] p(j),
    ensures
        positions(n, p) == Seq::<usize>::empty(),
    decreases n,
{
    if n > 0 {
        lemma_positions_none(n - 1, p);
    }
}

/// A least position, once found, is the one that `least` names.
pub proof fn lemma_least_found(lo: int, hi: int, p: spec_fn(int) -> bool, j: int)
    requires
        is_least(lo, hi, p, j),
    ensures
        least(lo, hi, p) == Some(j),
{
    let k = choose|k: int| is_least(lo, hi, p, k);
    assert(is_least(lo, hi, p, k));
    if k < j {
        assert(!p(k));
    } else if j < k {
        assert(!p(j));
    }
}

/// Where `p` holds nowhere in the range, `least` names no position.
pub proof fn lemma_least_absent(lo: int, hi: int, p: spec_fn(int) -> bool)
    requires
        forall|k: int| lo <= k < hi ==> !#[trigger] p(k),
    ensures
        least(lo, hi, p) is None,
{
}

/// A greatest position, once found, is the one that `greatest` names.
pub proof fn lemma_greatest_found(n: int, p: spec_fn(int) -> bool, j: int)
    requires
        is_greatest(n, p, j),
    ensures
        greatest(n, p) == Some(j),
{
    let k = choose|k: int| is_greatest(n, p, k);
    assert(is_greatest(n, p, k));
    if k < j {
        assert(!p(j));
    } else if j < k {
        assert(!p(k));
    }
}

/// Where `p` holds nowhere below `n`, `greatest` names no position.
pub proof fn lemma_greatest_absent(n: int, p: spec_fn(int) -> bool)
    requires
        forall|k: int| 0 <= k < n ==> !#[trigger] p(k),
    ensures
        greatest(n, p) is None,
{
}

/// Gathering one more result: a fault so far stays, else the new result decides.
pub proof fn lemma_collect_push<T, E>(items: Seq<Result<T, E>>, next: Result<T, E>)
    ensures
        collect(items.push(next)) == (match collect(items) {
            Err(e) => Err(e),
            Ok(done) => match next {
                Err(e) => Err(e),
                Ok(x) => Ok(done.push(x)),
            },
        }),
{
    assert(items.push(next).drop_last() == items);
}

/// Gathering the results of `f` on one more item of `items`.
pub proof fn lemma_collect_step<A, T, E>(items: Seq<A>, f: spec_fn(A) -> Result<T, E>, k: int)
    requires
        0 <= k < items.len(),
    ensures
        collect(items.take(k + 1).map_values(f)) == (match collect(items.take(k).map_values(f)) {
            Err(e) => Err(e),
            Ok(done) => match f(items[k]) {
                Err(e) => Err(e),
                Ok(x) => Ok(done.push(x)),
            },
        }),
{
    assert(items.take(k + 1).map_values(f) == items.take(k).map_values(f).push(f(items[k])));
    lemma_collect_push(items.take(k).map_values(f), f(items[k]));
}

/// A fault among the first results is the fault of the whole.
pub proof fn lemma_collect_fault<T, E>(items: Seq<Result<T, E>>, k: int)
    requires
        0 <= k <= items.len(),
        collect(items.take(k)) is Err,
    ensures
        collect(items) == collect(items.take(k)),
    decreases items.len() - k,
{
    if k == items.len() {
        assert(items.take(k) == items);
    } else {
        assert(items.take(k + 1).drop_last() == items.take(k));
        lemma_collect_fault(items, k + 1);
    }
}

/// A fault that `f` finds in the first items is the fault of the whole.
pub proof fn lemma_collect_map_fault<A, T, E>(
    items: Seq<A>,
    f: spec_fn(A) -> Result<T, E>,
    k: int,
)
    requires
        0 <= k <= items.len(),
        collect(items.take(k).map_values(f)) is Err,
    ensures
        collect(items.map_values(f)) == collect(items.take(k).map_values(f)),
{
    assert(items.map_values(f).take(k) == items.take(k).map_values(f));
    lemma_collect_fault(items.map_values(f), k);
}

/// Keeping the items that pass `q`, one more item at a time.
pub proof fn lemma_filter_step<A>(items: Seq<A>, q: spec_fn(A) -> bool, k: int)
    requires
        0 <= k < items.len(),
    ensures
        items.take(k + 1).filter(q) == (if q(items[k]) {
            items.take(k).filter(q).push(items[k])
        } else {
            items.take(k).filter(q)
        }),
{
    assert(items.take(k + 1) == items.take(k).push(items[k]));
    items.take(k).lemma_filter_push(items[k], q);
}

/// Where gathering succeeds, every result was `Ok`, and the values stand in
/// the order of the results.
pub proof fn lemma_collect_ok<T, E>(items: Seq<Result<T, E>>)
    requires
        collect(items) is Ok,
    ensures
        collect(items)->Ok_0.len() == items.len(),
        forall|i: int|
            0 <= i < items.len() ==> #[trigger] items[i] == Ok::<T, E>(collect(items)->Ok_0[i]),
    decreases items.len(),
{
    if items.len() > 0 {
        let before = items.drop_last();
        lemma_collect_ok(before);
        let out = collect(items)->Ok_0;
        assert(out == collect(before)->Ok_0.push(items.last()->Ok_0));
        assert forall|i: int| 0 <= i < items.len() implies #[trigger] items[i] == Ok::<T, E>(
            out[i],
        ) by {
            if i < before.len() {
                assert(items[i] == before[i]);
            }
        }
    }
}

/// Where gathering fails, its fault is that of the first result that is no
/// `Ok`.
pub proof fn lemma_collect_first_fault<T, E>(items: Seq<Result<T, E>>) -> (k: int)
    requires
        collect(items) is Err,
    ensures
        0 <= k < items.len(),
        items[k] == Err::<T, E>(collect(items)->Err_0),
        forall|j: int| 0 <= j < k ==> (#[trigger] items[j]) is Ok,
    decreases items.len(),
{
    let before = items.drop_last();
    if collect(before) is Err {
        let k = lemma_collect_first_fault(before);
        assert forall|j: int| 0 <= j < k implies (#[trigger] items[j]) is Ok by {
            assert(items[j] == before[j]);
        }
        k
    } else {
        lemma_collect_ok(before);
        assert forall|j: int| 0 <= j < items.len() - 1 implies (#[trigger] items[j]) is Ok by {
            assert(items[j] == before[j]);
        }
        items.len() - 1
    }
}

} // verus!

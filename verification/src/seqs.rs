//! What is picked of a sequence, in order.
use vstd::prelude::*;

verus! {

/// Whether `at` tells where the items of `part` come from: `part` holds what `f`
/// gives of the items of `all`, in their order and of each that gives something.
pub open spec fn picked_at<A, B>(
    all: Seq<A>,
    part: Seq<B>,
    f: spec_fn(A) -> Option<B>,
    at: Seq<int>,
) -> bool {
    &&& at.len() == part.len()
    &&& forall|k: int|
        0 <= k < at.len() ==> 0 <= #[trigger] at[k] < all.len() && f(all[at[k]]) == Some(part[k])
    &&& forall|j: int, k: int| 0 <= j < k < at.len() ==> #[trigger] at[j] < #[trigger] at[k]
    &&& forall|i: int| 0 <= i < all.len() && f(#[trigger] all[i]) is Some ==> at.contains(i)
}

/// Whether `part` holds what `f` gives of the items of `all`, in their order and
/// of each that gives something.
pub open spec fn picks<A, B>(all: Seq<A>, part: Seq<B>, f: spec_fn(A) -> Option<B>) -> bool {
    exists|at: Seq<int>| picked_at(all, part, f, at)
}

/// Nothing is picked of nothing.
pub proof fn lemma_picks_nothing<A, B>(all: Seq<A>, f: spec_fn(A) -> Option<B>)
    requires
        all.len() == 0,
    ensures
        picks(all, Seq::<B>::empty(), f),
{
    assert(picked_at(all, Seq::<B>::empty(), f, Seq::<int>::empty()));
}

/// One more item adds what it gives.
pub proof fn lemma_picks_push<A, B>(all: Seq<A>, part: Seq<B>, f: spec_fn(A) -> Option<B>, x: A)
    requires
        picks(all, part, f),
    ensures
        f(x) is Some ==> picks(all.push(x), part.push(f(x)->Some_0), f),
        f(x) is None ==> picks(all.push(x), part, f),
{
    let at = choose|at: Seq<int>| picked_at(all, part, f, at);
    let more = all.push(x);
    let n = all.len() as int;
    assert forall|k: int| 0 <= k < at.len() implies 0 <= #[trigger] at[k] < more.len() && f(
        more[at[k]],
    ) == Some(part[k]) by {
        assert(more[at[k]] == all[at[k]]);
    }
    if f(x) is Some {
        let places = at.push(n);
        let new = part.push(f(x)->Some_0);
        assert forall|i: int| 0 <= i < more.len() && f(#[trigger] more[i]) is Some implies
            places.contains(i) by {
            if i < n {
                assert(f(all[i]) is Some);
                let k = choose|k: int| 0 <= k < at.len() && at[k] == i;
                assert(places[k] == i);
            } else {
                assert(places[at.len() as int] == i);
            }
        }
        assert(picked_at(more, new, f, places));
    } else {
        assert forall|i: int| 0 <= i < more.len() && f(#[trigger] more[i]) is Some implies
            at.contains(i) by {
            assert(f(all[i]) is Some);
        }
        assert(picked_at(more, part, f, at));
    }
}

/// What the last item adds to what is picked of those before it.
pub proof fn lemma_picks_last<A, B>(all: Seq<A>, before: Seq<B>, f: spec_fn(A) -> Option<B>)
    requires
        all.len() > 0,
        picks(all.drop_last(), before, f),
    ensures
        f(all.last()) is Some ==> picks(all, before.push(f(all.last())->Some_0), f),
        f(all.last()) is None ==> picks(all, before, f),
{
    lemma_picks_push(all.drop_last(), before, f, all.last());
    assert(all.drop_last().push(all.last()) =~= all);
}

/// Only one sequence is picked in one way.
pub proof fn law_picks_are_unique<A, B>(
    all: Seq<A>,
    a: Seq<B>,
    b: Seq<B>,
    f: spec_fn(A) -> Option<B>,
)
    requires
        picks(all, a, f),
        picks(all, b, f),
    ensures
        a == b,
{
    let x = choose|at: Seq<int>| picked_at(all, a, f, at);
    let y = choose|at: Seq<int>| picked_at(all, b, f, at);
    lemma_same_places(all, a, b, f, x, y, 0);
    lemma_same_places(all, b, a, f, y, x, 0);
    if x.len() < y.len() {
        assert(f(all[y[x.len() as int]]) is Some);
        let k = choose|k: int| 0 <= k < x.len() && x[k] == y[x.len() as int];
        assert(y[k] == x[k]);
    } else if y.len() < x.len() {
        assert(f(all[x[y.len() as int]]) is Some);
        let k = choose|k: int| 0 <= k < y.len() && y[k] == x[y.len() as int];
        assert(x[k] == y[k]);
    }
    assert forall|k: int| 0 <= k < a.len() implies a[k] == b[k] by {
        assert(x[k] == y[k]);
    }
    assert(a =~= b);
}

proof fn lemma_same_places<A, B>(
    all: Seq<A>,
    a: Seq<B>,
    b: Seq<B>,
    f: spec_fn(A) -> Option<B>,
    x: Seq<int>,
    y: Seq<int>,
    from: int,
)
    requires
        picked_at(all, a, f, x),
        picked_at(all, b, f, y),
        0 <= from <= x.len(),
        forall|k: int| 0 <= k < from && k < y.len() ==> x[k] == #[trigger] y[k],
    ensures
        forall|k: int| 0 <= k < x.len() && k < y.len() ==> x[k] == #[trigger] y[k],
    decreases x.len() - from,
{
    if from < x.len() {
        if from < y.len() {
            assert(f(all[x[from]]) is Some && f(all[y[from]]) is Some);
            let i = choose|i: int| 0 <= i < y.len() && y[i] == x[from];
            let j = choose|j: int| 0 <= j < x.len() && x[j] == y[from];
            if i < from {
                assert(x[i] == y[i]);
            }
            if j < from {
                assert(x[j] == y[j]);
            }
            if from < i && from < j {
                assert(x[from] < x[j] && y[from] < y[i]);
            }
        }
        lemma_same_places(all, a, b, f, x, y, from + 1);
    }
}

} // verus!

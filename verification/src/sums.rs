use crate::base_types::ObjectID;
use crate::order::{ascending, id_before, lemma_ascending, lemma_ascending_is};
use vstd::prelude::*;

verus! {

/// The sum of `f` over the ids of a sequence.
pub open spec fn sum_over(ids: Seq<ObjectID>, f: spec_fn(ObjectID) -> int) -> int
    decreases ids.len(),
{
    if ids.len() == 0 {
        0
    } else {
        sum_over(ids.drop_last(), f) + f(ids.last())
    }
}

/// A sum of numbers that are not negative does not go down as it gets longer.
pub proof fn lemma_sum_prefix(ids: Seq<ObjectID>, f: spec_fn(ObjectID) -> int, n: int)
    requires
        0 <= n <= ids.len(),
        forall|id: ObjectID| #[trigger] f(id) >= 0,
    ensures
        0 <= sum_over(ids.take(n), f) <= sum_over(ids, f),
    decreases ids.len(),
{
    if n < ids.len() {
        lemma_sum_prefix(ids.drop_last(), f, n);
        assert(ids.drop_last().take(n) =~= ids.take(n));
    } else {
        assert(ids.take(n) =~= ids);
        lemma_sum_not_negative(ids, f);
    }
}

/// A sum of numbers that are not negative is not negative.
pub proof fn lemma_sum_not_negative(ids: Seq<ObjectID>, f: spec_fn(ObjectID) -> int)
    requires
        forall|id: ObjectID| #[trigger] f(id) >= 0,
    ensures
        sum_over(ids, f) >= 0,
    decreases ids.len(),
{
    if ids.len() > 0 {
        lemma_sum_not_negative(ids.drop_last(), f);
    }
}

/// Two functions that agree on the ids have the same sum over them.
pub proof fn lemma_sum_same(
    ids: Seq<ObjectID>,
    f: spec_fn(ObjectID) -> int,
    g: spec_fn(ObjectID) -> int,
)
    requires
        forall|i: int| 0 <= i < ids.len() ==> f(#[trigger] ids[i]) == g(ids[i]),
    ensures
        sum_over(ids, f) == sum_over(ids, g),
    decreases ids.len(),
{
    if ids.len() > 0 {
        let rest = ids.drop_last();
        assert forall|i: int| 0 <= i < rest.len() implies f(#[trigger] rest[i]) == g(rest[i]) by {
            assert(rest[i] == ids[i]);
        }
        lemma_sum_same(rest, f, g);
        assert(f(ids[ids.len() - 1]) == g(ids[ids.len() - 1]));
    }
}

/// A function that adds up two others on the ids sums to the two sums.
pub proof fn lemma_sum_split(
    ids: Seq<ObjectID>,
    f: spec_fn(ObjectID) -> int,
    g: spec_fn(ObjectID) -> int,
    h: spec_fn(ObjectID) -> int,
)
    requires
        forall|i: int| 0 <= i < ids.len() ==> f(#[trigger] ids[i]) == g(ids[i]) + h(ids[i]),
    ensures
        sum_over(ids, f) == sum_over(ids, g) + sum_over(ids, h),
    decreases ids.len(),
{
    if ids.len() > 0 {
        let rest = ids.drop_last();
        assert forall|i: int| 0 <= i < rest.len() implies f(#[trigger] rest[i]) == g(rest[i])
            + h(rest[i]) by {
            assert(rest[i] == ids[i]);
        }
        lemma_sum_split(rest, f, g, h);
        assert(f(ids[ids.len() - 1]) == g(ids[ids.len() - 1]) + h(ids[ids.len() - 1]));
    }
}

proof fn lemma_sum_without(ids: Seq<ObjectID>, f: spec_fn(ObjectID) -> int, i: int)
    requires
        0 <= i < ids.len(),
    ensures
        sum_over(ids, f) == sum_over(ids.remove(i), f) + f(ids[i]),
    decreases ids.len(),
{
    if i == ids.len() - 1 {
        assert(ids.remove(i) =~= ids.drop_last());
    } else {
        lemma_sum_without(ids.drop_last(), f, i);
        assert(ids.remove(i).drop_last() =~= ids.drop_last().remove(i));
    }
}

/// The sum over a set with one id more.
pub proof fn lemma_sum_insert(ids: Set<ObjectID>, f: spec_fn(ObjectID) -> int, id: ObjectID)
    requires
        ids.finite(),
        !ids.contains(id),
    ensures
        sum_over(ascending(ids.insert(id)), f) == sum_over(ascending(ids), f) + f(id),
{
    let more = ascending(ids.insert(id));
    lemma_ascending(ids.insert(id));
    assert(ids.insert(id).contains(id));
    let i = choose|i: int| 0 <= i < more.len() && more[i] == id;
    let rest = more.remove(i);
    lemma_sum_without(more, f, i);
    assert forall|j: int, k: int| 0 <= j < k < rest.len() implies id_before(
        #[trigger] rest[j],
        #[trigger] rest[k],
    ) by {
        let a = if j < i {
            j
        } else {
            j + 1
        };
        let b = if k < i {
            k
        } else {
            k + 1
        };
        assert(id_before(more[a], more[b]));
    }
    assert forall|x: ObjectID| rest.to_set().contains(x) <==> ids.contains(x) by {
        if ids.contains(x) {
            assert(ids.insert(id).contains(x));
            let j = choose|j: int| 0 <= j < more.len() && more[j] == x;
            let k = if j < i {
                j
            } else {
                j - 1
            };
            assert(rest[k] == x);
        }
        if rest.to_set().contains(x) {
            let k = choose|k: int| 0 <= k < rest.len() && rest[k] == x;
            let j = if k < i {
                k
            } else {
                k + 1
            };
            assert(more[j] == x);
            assert(ids.insert(id).contains(more[j]));
            if j < i {
                assert(id_before(more[j], more[i]));
            } else {
                assert(id_before(more[i], more[j]));
            }
        }
    }
    assert(rest.to_set() =~= ids);
    lemma_ascending_is(rest);
}

/// Two functions that agree on a set but for one id have sums that differ as they do there.
pub proof fn lemma_sum_differs_at(
    ids: Set<ObjectID>,
    f: spec_fn(ObjectID) -> int,
    g: spec_fn(ObjectID) -> int,
    id: ObjectID,
)
    requires
        ids.finite(),
        ids.contains(id),
        forall|x: ObjectID| #[trigger] ids.contains(x) && x != id ==> f(x) == g(x),
    ensures
        sum_over(ascending(ids), g) - sum_over(ascending(ids), f) == g(id) - f(id),
{
    let rest = ids.remove(id);
    assert(rest.insert(id) =~= ids);
    lemma_sum_insert(rest, f, id);
    lemma_sum_insert(rest, g, id);
    lemma_ascending(rest);
    lemma_sum_same(ascending(rest), f, g);
}

/// Two functions that agree on a set have the same sum over it.
pub proof fn lemma_sum_agrees(
    ids: Set<ObjectID>,
    f: spec_fn(ObjectID) -> int,
    g: spec_fn(ObjectID) -> int,
)
    requires
        ids.finite(),
        forall|x: ObjectID| #[trigger] ids.contains(x) ==> f(x) == g(x),
    ensures
        sum_over(ascending(ids), f) == sum_over(ascending(ids), g),
{
    lemma_ascending(ids);
    lemma_sum_same(ascending(ids), f, g);
}

} // verus!

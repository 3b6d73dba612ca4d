use crate::base_types::ObjectID;
use std::collections::BTreeMap;
use vstd::prelude::*;

verus! {

broadcast use vstd::laws_cmp::group_laws_cmp;

/// The order of object ids: by the high half, then by the low half.
pub open spec fn id_before(a: ObjectID, b: ObjectID) -> bool {
    a.0 < b.0 || (a.0 == b.0 && a.1 < b.1)
}

/// Whether every id of `s` comes before all that follow it.
pub open spec fn is_ascending(s: Seq<ObjectID>) -> bool {
    forall|i: int, j: int| 0 <= i < j < s.len() ==> id_before(#[trigger] s[i], #[trigger] s[j])
}

/// The ids of a finite set, each once, in ascending order.
pub open spec fn ascending(ids: Set<ObjectID>) -> Seq<ObjectID> {
    choose|s: Seq<ObjectID>| is_ascending(s) && s.to_set() == ids
}

/// An ascending sequence is the only one over its elements.
pub proof fn lemma_ascending_unique(a: Seq<ObjectID>, b: Seq<ObjectID>)
    requires
        is_ascending(a),
        is_ascending(b),
        a.to_set() == b.to_set(),
    ensures
        a == b,
    decreases a.len(),
{
    if a.len() == 0 {
        if b.len() > 0 {
            assert(b.to_set().contains(b[0]));
            assert(a.to_set().contains(b[0]));
        }
        assert(a =~= b);
    } else {
        assert(a.to_set().contains(a[0]));
        assert(b.to_set().contains(a[0]));
        assert(b.len() > 0);
        let x = a.last();
        let y = b.last();
        assert(a.to_set().contains(x));
        assert(b.to_set().contains(x));
        assert(b.contains(x));
        assert(b.to_set().contains(y));
        assert(a.to_set().contains(y));
        assert(a.contains(y));
        assert(x == y);
        let a0 = a.drop_last();
        let b0 = b.drop_last();
        assert forall|k: ObjectID| a0.to_set().contains(k) implies b0.to_set().contains(k) by {
            let i = choose|i: int| 0 <= i < a0.len() && a0[i] == k;
            assert(a[i] == k);
            assert(a.to_set().contains(k));
            assert(b.to_set().contains(k));
            let j = choose|j: int| 0 <= j < b.len() && b[j] == k;
            assert(id_before(a[i], a[a.len() - 1]));
            assert(j < b.len() - 1);
            assert(b0[j] == k);
        }
        assert forall|k: ObjectID| b0.to_set().contains(k) implies a0.to_set().contains(k) by {
            let i = choose|i: int| 0 <= i < b0.len() && b0[i] == k;
            assert(b[i] == k);
            assert(b.to_set().contains(k));
            assert(a.to_set().contains(k));
            let j = choose|j: int| 0 <= j < a.len() && a[j] == k;
            assert(id_before(b[i], b[b.len() - 1]));
            assert(j < a.len() - 1);
            assert(a0[j] == k);
        }
        assert(a0.to_set() =~= b0.to_set());
        lemma_ascending_unique(a0, b0);
        assert(a =~= a0.push(x));
        assert(b =~= b0.push(y));
    }
}

/// An ascending sequence is what `ascending` gives for its elements.
pub proof fn lemma_ascending_is(s: Seq<ObjectID>)
    requires
        is_ascending(s),
    ensures
        ascending(s.to_set()) == s,
{
    lemma_ascending_unique(ascending(s.to_set()), s);
}

proof fn lemma_last(ids: Set<ObjectID>) -> (last: ObjectID)
    requires
        ids.finite(),
        !ids.is_empty(),
    ensures
        ids.contains(last),
        forall|id: ObjectID| #[trigger] ids.contains(id) && id != last ==> id_before(id, last),
    decreases ids.len(),
{
    let some = ids.choose();
    assert(ids.contains(some));
    let rest = ids.remove(some);
    if rest.is_empty() {
        assert forall|id: ObjectID| #[trigger] ids.contains(id) implies id == some by {
            assert(rest.contains(id) || id == some);
        }
        some
    } else {
        let last = lemma_last(rest);
        assert forall|id: ObjectID| ids.contains(id) implies id == some || rest.contains(id) by {
        }
        if id_before(last, some) {
            some
        } else {
            last
        }
    }
}

/// The ids of a finite set can be put in ascending order.
pub proof fn lemma_ascending(ids: Set<ObjectID>)
    requires
        ids.finite(),
    ensures
        is_ascending(ascending(ids)),
        ascending(ids).to_set() == ids,
        forall|i: int| 0 <= i < ascending(ids).len() ==> ids.contains(#[trigger] ascending(ids)[i]),
        forall|id: ObjectID| #[trigger] ids.contains(id) ==> ascending(ids).contains(id),
    decreases ids.len(),
{
    if ids.is_empty() {
        let nothing = Seq::<ObjectID>::empty();
        assert(nothing.to_set() =~= ids);
        assert(is_ascending(nothing));
    } else {
        let last = lemma_last(ids);
        let rest = ids.remove(last);
        lemma_ascending(rest);
        let s = ascending(rest).push(last);
        assert forall|i: int, j: int| 0 <= i < j < s.len() implies id_before(
            #[trigger] s[i],
            #[trigger] s[j],
        ) by {
            assert(rest.contains(ascending(rest)[i]));
            assert(ids.contains(s[i]));
        }
        assert forall|id: ObjectID| s.to_set().contains(id) <==> ids.contains(id) by {
            if ids.contains(id) {
                if id == last {
                    assert(s[s.len() - 1] == id);
                } else {
                    assert(rest.contains(id));
                    let i = choose|i: int|
                        0 <= i < ascending(rest).len() && ascending(rest)[i] == id;
                    assert(s[i] == id);
                }
            }
            if s.to_set().contains(id) {
                let i = choose|i: int| 0 <= i < s.len() && s[i] == id;
                if i < ascending(rest).len() {
                    assert(rest.contains(ascending(rest)[i]));
                }
            }
        }
        assert(s.to_set() =~= ids);
        assert(is_ascending(s));
    }
    assert forall|i: int| 0 <= i < ascending(ids).len() implies ids.contains(
        #[trigger] ascending(ids)[i],
    ) by {
        assert(ascending(ids).to_set().contains(ascending(ids)[i]));
    }
    assert forall|id: ObjectID| #[trigger] ids.contains(id) implies ascending(ids).contains(id) by {
        assert(ascending(ids).to_set().contains(id));
    }
}

/// The keys of a map, in ascending order.
pub fn keys_in_order<V>(m: &BTreeMap<ObjectID, V>) -> (keys: Vec<ObjectID>)
    ensures
        keys@ == ascending(m@.dom()),
        is_ascending(keys@),
        keys@.to_set() == m@.dom(),
        forall|i: int| 0 <= i < keys.len() ==> m@.contains_key(#[trigger] keys[i]),
{
    let mut keys: Vec<ObjectID> = Vec::new();
    for k in it: m.keys()
        invariant
            keys@ =~= it.seq().take(it.index()).map_values(|r: &ObjectID| *r),
    {
        keys.push(*k);
    }
    proof {
        let refs = vstd::std_specs::iter::IteratorSpec::remaining(
                &vstd::std_specs::btree::spec_keys_iter(m),
            );
        assert(keys@ =~= refs.unref());
        assert(vstd::std_specs::btree::increasing_seq(refs));
        assert forall|i: int, j: int| 0 <= i < j < keys@.len() implies id_before(
            #[trigger] keys@[i],
            #[trigger] keys@[j],
        ) by {
            assert(vstd::laws_cmp::obeys_cmp::<&ObjectID>());
            assert(vstd::std_specs::cmp::OrdSpec::cmp_spec(&refs[i], &refs[j]) is Less);
            assert(refs[i] == keys@[i]);
            assert(refs[j] == keys@[j]);
        }
        lemma_ascending_is(keys@);
        assert forall|i: int| 0 <= i < keys.len() implies m@.contains_key(#[trigger] keys[i]) by {
            assert(keys@.to_set().contains(keys@[i]));
        }
    }
    keys
}

} // verus!

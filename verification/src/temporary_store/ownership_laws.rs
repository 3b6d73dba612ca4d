use crate::base_types::{ObjectID, ObjectRef, SuiAddress};
use crate::error::SuiError;
use crate::object::{ObjectView, Owner};
use crate::order::{ascending, id_before, is_ascending, lemma_ascending};
use crate::storage::{DeleteKind, ObjectStore, WriteKind};
use crate::temporary_store::model::StoreView;
use crate::temporary_store::ownership::{
    first_failure, law_ownership_of_every_object, lemma_fault_above, lemma_fault_here,
    lemma_no_failure, lemma_one_fault, lemma_selected, lemma_way_up_ends, selected, OwnershipError,
    OwnershipViolation,
};
use vstd::prelude::*;

verus! {

/// The object that a lookup found, if it found one.
pub open spec fn stored<S: ObjectStore>(store: S, id: ObjectID) -> Option<ObjectView> {
    match store.object_at(id) {
        Ok(object) => object,
        Err(_) => None,
    }
}

/// Whether every id of the path but the last is an object of the store that belongs to the object
/// under the next one.
pub open spec fn is_path<S: ObjectStore>(store: S, path: Seq<ObjectID>) -> bool {
    &&& path.len() > 0
    &&& forall|i: int|
        #![trigger path[i]]
        0 <= i < path.len() - 1 ==> {
            &&& stored(store, path[i]) is Some
            &&& stored(store, path[i])->0.owner == Owner::ObjectOwner(
                SuiAddress { high: path[i + 1].0, low: path[i + 1].1 },
            )
        }
}

/// Whether one of the coins that pay for gas is `id`.
pub open spec fn pays(gas: Seq<ObjectRef>, id: ObjectID) -> bool {
    exists|i: int| 0 <= i < gas.len() && #[trigger] gas[i].0 == id
}

/// Whether `id` is an input of an account or a shared one, and does not pay for gas.
pub open spec fn is_anchor(s: StoreView, gas: Seq<ObjectRef>, id: ObjectID) -> bool {
    &&& s.input_objects.contains_key(id)
    &&& match s.input_objects[id].owner {
        Owner::AddressOwner(_) => true,
        Owner::Shared { .. } => true,
        Owner::ObjectOwner(_) => false,
        Owner::Immutable => false,
    }
    &&& !pays(gas, id)
}

/// Whether no id of the path but perhaps the first is an anchor.
pub open spec fn misses_anchors(s: StoreView, gas: Seq<ObjectRef>, path: Seq<ObjectID>) -> bool {
    forall|i: int| 1 <= i < path.len() ==> !is_anchor(s, gas, #[trigger] path[i])
}

/// Whether the path comes to a bad end: to a lookup that fails, or to an object that belongs to no
/// object.
pub open spec fn ends_badly<S: ObjectStore>(store: S, path: Seq<ObjectID>) -> bool {
    match store.object_at(path.last()) {
        Err(_) => true,
        Ok(None) => false,
        Ok(Some(object)) => match object.owner {
            Owner::ObjectOwner(_) => false,
            _ => true,
        },
    }
}

/// What is wrong with the end of a path that ends badly.
pub open spec fn bad_end<S: ObjectStore>(store: S, path: Seq<ObjectID>) -> OwnershipError {
    match store.object_at(path.last()) {
        Err(error) => OwnershipError::Store(error),
        Ok(object) => OwnershipError::Violation(
            OwnershipViolation::UnauthenticatedRoot { id: path.last(), owner: object->0.owner },
        ),
    }
}

/// Whether the path leads from `id`, past all anchors, to a bad end.
pub open spec fn leads_astray<S: ObjectStore>(
    s: StoreView,
    store: S,
    gas: Seq<ObjectRef>,
    id: ObjectID,
    path: Seq<ObjectID>,
) -> bool {
    is_path(store, path) && path[0] == id && misses_anchors(s, gas, path) && ends_badly(store, path)
}

proof fn lemma_anchor(s: StoreView, gas: Seq<ObjectRef>, id: ObjectID)
    ensures
        s.is_authenticated(gas, id) <==> is_anchor(s, gas, id),
        crate::temporary_store::ownership::is_gas(gas, id) <==> pays(gas, id),
{
    if pays(gas, id) {
        let i = choose|i: int| 0 <= i < gas.len() && #[trigger] gas[i].0 == id;
        assert(gas[i].0 == id);
    }
    if crate::temporary_store::ownership::is_gas(gas, id) {
        let i = choose|i: int| 0 <= i < gas.len() && (#[trigger] gas[i]).0 == id;
        assert(gas[i].0 == id);
    }
}

/// An object whose owners lead up to an anchor, over however many objects, has nothing wrong with
/// its owners.
pub proof fn law_path_to_an_anchor_is_accepted<S: ObjectStore>(
    s: StoreView,
    store: S,
    gas: Seq<ObjectRef>,
    path: Seq<ObjectID>,
)
    requires
        is_path(store, path),
        path.len() > 1,
        is_anchor(s, gas, path.last()),
    ensures
        s.chain_fault(store, gas, path[0]) is None,
    decreases path.len(),
{
    let id = path[0];
    lemma_anchor(s, gas, path[1]);
    assert(stored(store, path[0]) is Some);
    assert(s.root_fault(store, id) is None);
    if is_anchor(s, gas, path[1]) {
        lemma_no_way_up(s, store, gas, id);
    } else {
        let rest = path.drop_first();
        assert(rest[0] == path[1]);
        assert(path.len() > 2);
        assert(rest.last() == path.last());
        assert forall|i: int|
            #![trigger rest[i]]
            0 <= i < rest.len() - 1 implies {
            &&& stored(store, rest[i]) is Some
            &&& stored(store, rest[i])->0.owner == Owner::ObjectOwner(
                SuiAddress { high: rest[i + 1].0, low: rest[i + 1].1 },
            )
        } by {
            assert(rest[i] == path[i + 1]);
            assert(rest[i + 1] == path[i + 2]);
        }
        law_path_to_an_anchor_is_accepted(s, store, gas, rest);
        assert(s.next_owner(store, gas, id) == Some(path[1]));
        lemma_fault_above(s, store, gas, id);
    }
}

proof fn lemma_no_way_up<S: ObjectStore>(
    s: StoreView,
    store: S,
    gas: Seq<ObjectRef>,
    id: ObjectID,
)
    requires
        s.root_fault(store, id) is None,
        s.next_owner(store, gas, id) is None,
    ensures
        s.chain_fault(store, gas, id) is None,
{
    assert forall|n: nat| !s.faulty_above(store, gas, id, n) by {
        assert(s.owner_above(store, gas, id, 0) == Some(id));
        if n > 0 {
            assert(s.owner_above(store, gas, id, 1) is None) by {
                reveal_with_fuel(StoreView::owner_above, 2);
            }
            lemma_way_up_ends(s, store, gas, id, 1, n);
        }
    }
}

/// An object whose owners lead past all anchors to a bad end has that wrong with its owners.
pub proof fn law_path_past_anchors_is_refused<S: ObjectStore>(
    s: StoreView,
    store: S,
    gas: Seq<ObjectRef>,
    path: Seq<ObjectID>,
)
    requires
        is_path(store, path),
        misses_anchors(s, gas, path),
        ends_badly(store, path),
    ensures
        s.chain_fault(store, gas, path[0]) == Some(bad_end(store, path)),
    decreases path.len(),
{
    let id = path[0];
    if path.len() == 1 {
        lemma_fault_here(s, store, gas, id);
    } else {
        let rest = path.drop_first();
        lemma_anchor(s, gas, path[1]);
        assert(!is_anchor(s, gas, path[1]));
        assert(stored(store, path[0]) is Some);
        assert(rest.last() == path.last());
        assert(rest[0] == path[1]);
        assert forall|i: int|
            #![trigger rest[i]]
            0 <= i < rest.len() - 1 implies {
            &&& stored(store, rest[i]) is Some
            &&& stored(store, rest[i])->0.owner == Owner::ObjectOwner(
                SuiAddress { high: rest[i + 1].0, low: rest[i + 1].1 },
            )
        } by {
            assert(rest[i] == path[i + 1]);
            assert(rest[i + 1] == path[i + 2]);
        }
        assert forall|i: int| 1 <= i < rest.len() implies !is_anchor(s, gas, #[trigger] rest[i]) by {
            assert(rest[i] == path[i + 1]);
        }
        law_path_past_anchors_is_refused(s, store, gas, rest);
        assert(s.next_owner(store, gas, id) == Some(path[1]));
        lemma_fault_above(s, store, gas, id);
    }
}

/// Something is wrong with the owners of an object only if they lead past all anchors to a bad end.
pub proof fn law_only_paths_past_anchors_are_refused<S: ObjectStore>(
    s: StoreView,
    store: S,
    gas: Seq<ObjectRef>,
    id: ObjectID,
) -> (path: Seq<ObjectID>)
    requires
        s.chain_fault(store, gas, id) is Some,
    ensures
        leads_astray(s, store, gas, id, path),
        s.chain_fault(store, gas, id) == Some(bad_end(store, path)),
{
    let n = choose|n: nat| s.faulty_above(store, gas, id, n);
    let path = Seq::new(n + 1, |i: int| s.owner_above(store, gas, id, i as nat)->0);
    assert forall|i: nat| i <= n implies #[trigger] s.owner_above(store, gas, id, i) is Some by {
        if s.owner_above(store, gas, id, i) is None {
            lemma_way_up_ends(s, store, gas, id, i, n);
        }
    }
    assert forall|i: int| 0 <= i < n implies s.next_owner(store, gas, #[trigger] path[i]) == Some(
        path[i + 1],
    ) by {
        assert(s.owner_above(store, gas, id, i as nat) is Some);
        assert(s.owner_above(store, gas, id, (i + 1) as nat) is Some);
    }
    assert(path[0] == id);
    assert forall|i: int|
        #![trigger path[i]]
        0 <= i < path.len() - 1 implies {
        &&& stored(store, path[i]) is Some
        &&& stored(store, path[i])->0.owner == Owner::ObjectOwner(
            SuiAddress { high: path[i + 1].0, low: path[i + 1].1 },
        )
    } by {
        assert(s.next_owner(store, gas, path[i]) == Some(path[i + 1]));
    }
    assert forall|i: int| 1 <= i < path.len() implies !is_anchor(s, gas, #[trigger] path[i]) by {
        assert(s.next_owner(store, gas, path[i - 1]) == Some(path[i - 1 + 1]));
        lemma_anchor(s, gas, path[i]);
    }
    lemma_one_fault(s, store, gas, id, n);
    path
}

/// Whether a transaction of `sender` may have done to the object `id` what it did.
///
/// An input that does not pay for gas belongs to the sender, or is shared or immutable. An object
/// that existed before and was changed or deleted is an anchor, or pays for gas, or belonged to an
/// object and its owners do not lead astray. Or it is one of the packages `0x1`, `0x2` and `0x3`,
/// and was changed at the end of an epoch.
pub open spec fn is_rightful<S: ObjectStore>(
    s: StoreView,
    store: S,
    sender: SuiAddress,
    gas: Seq<ObjectRef>,
    is_epoch_change: bool,
    id: ObjectID,
) -> bool {
    let was_changed = s.written.contains_key(id) && s.written[id].1 == WriteKind::Mutate;
    let was_deleted = s.deleted.contains_key(id) && s.deleted[id].1 != DeleteKind::UnwrapThenDelete;
    let belonged_to_object = stored(store, id) is Some && stored(store, id)->0.owner is ObjectOwner
        && forall|path: Seq<ObjectID>| !leads_astray(s, store, gas, id, path);
    let was_upgraded = stored(store, id) is Some && stored(store, id)->0.owner == Owner::Immutable
        && is_epoch_change && (id == (0u128, 1u128) || id == (0u128, 2u128) || id == (
        0u128,
        3u128,
    ));
    &&& s.input_objects.contains_key(id) && !pays(gas, id) ==> match s.input_objects[id].owner {
        Owner::AddressOwner(owner) => owner == sender,
        Owner::Shared { .. } => true,
        Owner::Immutable => true,
        Owner::ObjectOwner(_) => false,
    }
    &&& was_changed && !is_anchor(s, gas, id) && !pays(gas, id) ==> belonged_to_object
        || was_upgraded
    &&& was_deleted && !is_anchor(s, gas, id) && !pays(gas, id) ==> belonged_to_object
}

/// The check of ownership succeeds just if everything that the transaction did was rightful.
pub proof fn law_ownership_check_accepts_the_rightful<S: ObjectStore>(
    s: StoreView,
    store: S,
    sender: SuiAddress,
    gas: Seq<ObjectRef>,
    is_epoch_change: bool,
)
    requires
        s.input_objects.dom().finite(),
        s.written.dom().finite(),
        s.deleted.dom().finite(),
    ensures
        s.ownership_outcome(store, sender, gas, is_epoch_change) is Ok <==> forall|id: ObjectID| #[trigger]
            is_rightful(s, store, sender, gas, is_epoch_change, id),
{
    law_ownership_of_every_object(s, store, sender, gas, is_epoch_change);
    assert forall|id: ObjectID|
        #![trigger is_rightful(s, store, sender, gas, is_epoch_change, id)]
        #![trigger s.has_right_to(store, sender, gas, is_epoch_change, id)]
        is_rightful(s, store, sender, gas, is_epoch_change, id) <==> s.has_right_to(
            store,
            sender,
            gas,
            is_epoch_change,
            id,
        ) by {
        lemma_anchor(s, gas, id);
        if s.chain_fault(store, gas, id) is Some {
            let path = law_only_paths_past_anchors_are_refused(s, store, gas, id);
            assert(leads_astray(s, store, gas, id, path));
        } else {
            assert forall|path: Seq<ObjectID>| !leads_astray(s, store, gas, id, path) by {
                if leads_astray(s, store, gas, id, path) {
                    law_path_past_anchors_is_refused(s, store, gas, path);
                }
            }
        }
    }
    if forall|id: ObjectID| #[trigger]
        is_rightful(s, store, sender, gas, is_epoch_change, id) {
        assert forall|id: ObjectID| #[trigger]
            s.has_right_to(store, sender, gas, is_epoch_change, id) by {
            assert(is_rightful(s, store, sender, gas, is_epoch_change, id));
        }
    }
}

/// How an input that does not pay for gas breaks the rules: it belongs to another account than the
/// sender, or to an object.
pub open spec fn wrong_input(
    s: StoreView,
    sender: SuiAddress,
    gas: Seq<ObjectRef>,
    id: ObjectID,
) -> Option<OwnershipViolation> {
    match s.input_objects[id].owner {
        Owner::AddressOwner(owner) if owner != sender && !pays(gas, id) => Some(
            OwnershipViolation::InputNotOwnedBySender(id),
        ),
        Owner::ObjectOwner(_) if !pays(gas, id) => Some(OwnershipViolation::InputOwnedByObject(id)),
        _ => None,
    }
}

/// Whether what was written under `id` existed before, is no anchor and does not pay for gas.
pub open spec fn changed_from_afar(s: StoreView, gas: Seq<ObjectRef>, id: ObjectID) -> bool {
    s.written.contains_key(id) && s.written[id].1 == WriteKind::Mutate && !is_anchor(s, gas, id)
        && !pays(gas, id)
}

/// Whether what was deleted under `id` existed before, is no anchor and does not pay for gas.
pub open spec fn deleted_from_afar(s: StoreView, gas: Seq<ObjectRef>, id: ObjectID) -> bool {
    s.deleted.contains_key(id) && s.deleted[id].1 != DeleteKind::UnwrapThenDelete && !is_anchor(
        s,
        gas,
        id,
    ) && !pays(gas, id)
}

/// What is wrong with changing an object from afar, as it stood before.
pub open spec fn wrong_change(
    before: Result<Option<ObjectView>, SuiError>,
    is_epoch_change: bool,
    id: ObjectID,
) -> Option<OwnershipError> {
    match before {
        Err(error) => Some(OwnershipError::Store(error)),
        Ok(None) => Some(OwnershipError::Violation(OwnershipViolation::MutatedObjectMissing(id))),
        Ok(Some(object)) => match object.owner {
            Owner::ObjectOwner(_) => None,
            Owner::AddressOwner(_) => Some(
                OwnershipError::Violation(OwnershipViolation::MutatedObjectNotInput(id)),
            ),
            Owner::Shared { .. } => Some(
                OwnershipError::Violation(OwnershipViolation::MutatedObjectNotInput(id)),
            ),
            Owner::Immutable => if !is_epoch_change {
                Some(OwnershipError::Violation(OwnershipViolation::ImmutableObjectMutated(id)))
            } else if id.0 != 0 || id.1 < 1 || id.1 > 3 {
                Some(OwnershipError::Violation(OwnershipViolation::NotASystemPackage(id)))
            } else {
                None
            },
        },
    }
}

/// What is wrong with deleting an object from afar, as it stood before.
pub open spec fn wrong_deletion(
    before: Result<Option<ObjectView>, SuiError>,
    id: ObjectID,
) -> Option<OwnershipError> {
    match before {
        Err(error) => Some(OwnershipError::Store(error)),
        Ok(None) => Some(OwnershipError::Violation(OwnershipViolation::DeletedObjectMissing(id))),
        Ok(Some(object)) => match object.owner {
            Owner::ObjectOwner(_) => None,
            Owner::AddressOwner(_) => Some(
                OwnershipError::Violation(OwnershipViolation::DeletedObjectNotInput(id)),
            ),
            Owner::Shared { .. } => Some(
                OwnershipError::Violation(OwnershipViolation::DeletedObjectNotInput(id)),
            ),
            Owner::Immutable => Some(
                OwnershipError::Violation(OwnershipViolation::ImmutableObjectDeleted(id)),
            ),
        },
    }
}

proof fn lemma_first_failure(
    ids: Seq<ObjectID>,
    step: spec_fn(ObjectID) -> Result<bool, OwnershipError>,
    i: int,
)
    requires
        0 <= i < ids.len(),
        step(ids[i]) is Err,
        forall|j: int| 0 <= j < i ==> step(#[trigger] ids[j]) is Ok,
    ensures
        first_failure(ids, step) == Some(step(ids[i])->Err_0),
    decreases ids.len(),
{
    let rest = ids.drop_last();
    if i < rest.len() {
        assert forall|j: int| 0 <= j < i implies step(#[trigger] rest[j]) is Ok by {
            assert(rest[j] == ids[j]);
        }
        assert(rest[i] == ids[i]);
        lemma_first_failure(rest, step, i);
    } else {
        assert forall|j: int| 0 <= j < rest.len() implies step(#[trigger] rest[j]) is Ok by {
            assert(rest[j] == ids[j]);
        }
        lemma_no_failure(rest, step);
    }
}

proof fn lemma_first_failure_of_set(
    ids: Set<ObjectID>,
    step: spec_fn(ObjectID) -> Result<bool, OwnershipError>,
    id: ObjectID,
)
    requires
        ids.finite(),
        ids.contains(id),
        step(id) is Err,
        forall|x: ObjectID| #[trigger] ids.contains(x) && id_before(x, id) ==> step(x) is Ok,
    ensures
        first_failure(ascending(ids), step) == Some(step(id)->Err_0),
{
    lemma_ascending(ids);
    let all = ascending(ids);
    let i = choose|i: int| 0 <= i < all.len() && all[i] == id;
    assert forall|j: int| 0 <= j < i implies step(#[trigger] all[j]) is Ok by {
        assert(id_before(all[j], all[i]));
        assert(ids.contains(all[j]));
    }
    lemma_first_failure(all, step, i);
}

proof fn lemma_no_failure_of_set(
    ids: Set<ObjectID>,
    step: spec_fn(ObjectID) -> Result<bool, OwnershipError>,
)
    requires
        ids.finite(),
        forall|x: ObjectID| #[trigger] ids.contains(x) ==> step(x) is Ok,
    ensures
        first_failure(ascending(ids), step) is None,
{
    lemma_ascending(ids);
    let all = ascending(ids);
    assert forall|j: int| 0 <= j < all.len() implies step(#[trigger] all[j]) is Ok by {
        assert(ids.contains(all[j]));
    }
    lemma_no_failure(all, step);
}

/// Of the inputs that break the rules, the first one is reported, before anything else.
pub proof fn law_first_wrong_input_is_reported<S: ObjectStore>(
    s: StoreView,
    store: S,
    sender: SuiAddress,
    gas: Seq<ObjectRef>,
    is_epoch_change: bool,
    id: ObjectID,
)
    requires
        s.input_objects.dom().finite(),
        s.input_objects.contains_key(id),
        wrong_input(s, sender, gas, id) is Some,
        forall|x: ObjectID| #[trigger]
            s.input_objects.contains_key(x) && id_before(x, id) ==> wrong_input(
                s,
                sender,
                gas,
                x,
            ) is None,
    ensures
        s.ownership_outcome(store, sender, gas, is_epoch_change) == Err::<(), OwnershipError>(
            OwnershipError::Violation(wrong_input(s, sender, gas, id)->0),
        ),
{
    let step = s.check_input(sender, gas);
    assert(s.input_objects.dom().contains(id));
    lemma_anchor(s, gas, id);
    assert forall|x: ObjectID| #[trigger]
        s.input_objects.dom().contains(x) && id_before(x, id) implies step(x) is Ok by {
        assert(s.input_objects.contains_key(x));
        lemma_anchor(s, gas, x);
    }
    lemma_first_failure_of_set(s.input_objects.dom(), step, id);
}

proof fn lemma_inputs_in_order(s: StoreView, sender: SuiAddress, gas: Seq<ObjectRef>)
    requires
        s.input_objects.dom().finite(),
        forall|x: ObjectID| #[trigger]
            s.input_objects.contains_key(x) ==> wrong_input(s, sender, gas, x) is None,
    ensures
        first_failure(ascending(s.input_objects.dom()), s.check_input(sender, gas)) is None,
{
    let step = s.check_input(sender, gas);
    assert forall|x: ObjectID| #[trigger] s.input_objects.dom().contains(x) implies step(
        x,
    ) is Ok by {
        assert(s.input_objects.contains_key(x));
        lemma_anchor(s, gas, x);
    }
    lemma_no_failure_of_set(s.input_objects.dom(), step);
}

proof fn lemma_changes_in_order<S: ObjectStore>(
    s: StoreView,
    store: S,
    gas: Seq<ObjectRef>,
    is_epoch_change: bool,
)
    requires
        s.written.dom().finite(),
        forall|x: ObjectID| #[trigger]
            changed_from_afar(s, gas, x) ==> wrong_change(
                store.object_at(x),
                is_epoch_change,
                x,
            ) is None,
    ensures
        first_failure(
            ascending(s.written.dom()),
            s.check_written(store, gas, is_epoch_change),
        ) is None,
{
    let step = s.check_written(store, gas, is_epoch_change);
    assert forall|x: ObjectID| #[trigger] s.written.dom().contains(x) implies step(x) is Ok by {
        assert(s.written.contains_key(x));
        lemma_anchor(s, gas, x);
        assert(changed_from_afar(s, gas, x) ==> wrong_change(
            store.object_at(x),
            is_epoch_change,
            x,
        ) is None);
    }
    lemma_no_failure_of_set(s.written.dom(), step);
}

/// Where no input breaks the rules, the first change from afar that does is reported.
pub proof fn law_first_wrong_change_is_reported<S: ObjectStore>(
    s: StoreView,
    store: S,
    sender: SuiAddress,
    gas: Seq<ObjectRef>,
    is_epoch_change: bool,
    id: ObjectID,
)
    requires
        s.input_objects.dom().finite(),
        s.written.dom().finite(),
        forall|x: ObjectID| #[trigger]
            s.input_objects.contains_key(x) ==> wrong_input(s, sender, gas, x) is None,
        changed_from_afar(s, gas, id),
        wrong_change(store.object_at(id), is_epoch_change, id) is Some,
        forall|x: ObjectID| #[trigger]
            changed_from_afar(s, gas, x) && id_before(x, id) ==> wrong_change(
                store.object_at(x),
                is_epoch_change,
                x,
            ) is None,
    ensures
        s.ownership_outcome(store, sender, gas, is_epoch_change) == Err::<(), OwnershipError>(
            wrong_change(store.object_at(id), is_epoch_change, id)->0,
        ),
{
    let step = s.check_written(store, gas, is_epoch_change);
    lemma_inputs_in_order(s, sender, gas);
    assert(s.written.dom().contains(id));
    lemma_anchor(s, gas, id);
    assert forall|x: ObjectID| #[trigger]
        s.written.dom().contains(x) && id_before(x, id) implies step(x) is Ok by {
        assert(s.written.contains_key(x));
        lemma_anchor(s, gas, x);
        assert(changed_from_afar(s, gas, x) && id_before(x, id) ==> wrong_change(
            store.object_at(x),
            is_epoch_change,
            x,
        ) is None);
    }
    lemma_first_failure_of_set(s.written.dom(), step, id);
}

/// Where no input and no change breaks the rules, the first deletion from afar that does is
/// reported.
pub proof fn law_first_wrong_deletion_is_reported<S: ObjectStore>(
    s: StoreView,
    store: S,
    sender: SuiAddress,
    gas: Seq<ObjectRef>,
    is_epoch_change: bool,
    id: ObjectID,
)
    requires
        s.input_objects.dom().finite(),
        s.written.dom().finite(),
        s.deleted.dom().finite(),
        forall|x: ObjectID| #[trigger]
            s.input_objects.contains_key(x) ==> wrong_input(s, sender, gas, x) is None,
        forall|x: ObjectID| #[trigger]
            changed_from_afar(s, gas, x) ==> wrong_change(
                store.object_at(x),
                is_epoch_change,
                x,
            ) is None,
        deleted_from_afar(s, gas, id),
        wrong_deletion(store.object_at(id), id) is Some,
        forall|x: ObjectID| #[trigger]
            deleted_from_afar(s, gas, x) && id_before(x, id) ==> wrong_deletion(
                store.object_at(x),
                x,
            ) is None,
    ensures
        s.ownership_outcome(store, sender, gas, is_epoch_change) == Err::<(), OwnershipError>(
            wrong_deletion(store.object_at(id), id)->0,
        ),
{
    let step = s.check_deleted(store, gas);
    lemma_inputs_in_order(s, sender, gas);
    lemma_changes_in_order(s, store, gas, is_epoch_change);
    assert(s.deleted.dom().contains(id));
    lemma_anchor(s, gas, id);
    assert forall|x: ObjectID| #[trigger]
        s.deleted.dom().contains(x) && id_before(x, id) implies step(x) is Ok by {
        assert(s.deleted.contains_key(x));
        lemma_anchor(s, gas, x);
        assert(deleted_from_afar(s, gas, x) && id_before(x, id) ==> wrong_deletion(
            store.object_at(x),
            x,
        ) is None);
    }
    lemma_first_failure_of_set(s.deleted.dom(), step, id);
}

proof fn lemma_last_chain_fault<S: ObjectStore>(
    s: StoreView,
    store: S,
    gas: Seq<ObjectRef>,
    ids: Seq<ObjectID>,
    i: int,
)
    requires
        0 <= i < ids.len(),
        s.chain_fault(store, gas, ids[i]) is Some,
        forall|j: int| i < j < ids.len() ==> s.chain_fault(store, gas, #[trigger] ids[j]) is None,
    ensures
        s.last_chain_fault(store, gas, ids) == s.chain_fault(store, gas, ids[i]),
    decreases ids.len(),
{
    if i < ids.len() - 1 {
        let rest = ids.drop_last();
        assert forall|j: int| i < j < rest.len() implies s.chain_fault(
            store,
            gas,
            #[trigger] rest[j],
        ) is None by {
            assert(rest[j] == ids[j]);
        }
        assert(s.chain_fault(store, gas, ids[ids.len() - 1]) is None);
        lemma_last_chain_fault(s, store, gas, rest, i);
    }
}

/// Where every object from afar belonged to an object, or was upgraded, and the owners of one that
/// was deleted lead astray, the fault at the end of its path is reported, unless there is a later
/// such one.
pub proof fn law_last_stray_deletion_is_reported<S: ObjectStore>(
    s: StoreView,
    store: S,
    sender: SuiAddress,
    gas: Seq<ObjectRef>,
    is_epoch_change: bool,
    id: ObjectID,
    path: Seq<ObjectID>,
)
    requires
        s.input_objects.dom().finite(),
        s.written.dom().finite(),
        s.deleted.dom().finite(),
        forall|x: ObjectID| #[trigger]
            s.input_objects.contains_key(x) ==> wrong_input(s, sender, gas, x) is None,
        forall|x: ObjectID| #[trigger]
            changed_from_afar(s, gas, x) ==> wrong_change(
                store.object_at(x),
                is_epoch_change,
                x,
            ) is None,
        forall|x: ObjectID| #[trigger]
            deleted_from_afar(s, gas, x) ==> wrong_deletion(store.object_at(x), x) is None,
        deleted_from_afar(s, gas, id),
        leads_astray(s, store, gas, id, path),
        forall|x: ObjectID, other: Seq<ObjectID>|
            deleted_from_afar(s, gas, x) && id_before(id, x) ==> !#[trigger] leads_astray(
                s,
                store,
                gas,
                x,
                other,
            ),
    ensures
        s.ownership_outcome(store, sender, gas, is_epoch_change) == Err::<(), OwnershipError>(
            bad_end(store, path),
        ),
{
    let of_written = s.check_written(store, gas, is_epoch_change);
    let of_deleted = s.check_deleted(store, gas);
    let written = ascending(s.written.dom());
    let deleted = ascending(s.deleted.dom());
    lemma_pending(s, store, sender, gas, is_epoch_change);
    let pending = selected(deleted, of_deleted);
    let roots = selected(written, of_written) + pending;
    law_path_past_anchors_is_refused(s, store, gas, path);
    lemma_anchor(s, gas, id);
    lemma_ascending(s.deleted.dom());
    assert(s.deleted.dom().contains(id));
    lemma_selected(deleted, of_deleted, id);
    let i = choose|i: int| 0 <= i < pending.len() && pending[i] == id;
    lemma_selected_ascending(deleted, of_deleted);
    let n = selected(written, of_written).len();
    assert(roots[n + i] == id);
    assert forall|j: int| n + i < j < roots.len() implies s.chain_fault(
        store,
        gas,
        #[trigger] roots[j],
    ) is None by {
        let x = roots[j];
        assert(x == pending[j - n]);
        assert(pending.contains(x));
        lemma_selected(deleted, of_deleted, x);
        assert(deleted.to_set().contains(x));
        lemma_anchor(s, gas, x);
        assert(id_before(pending[i], pending[j - n]));
        if s.chain_fault(store, gas, x) is Some {
            let other = law_only_paths_past_anchors_are_refused(s, store, gas, x);
            assert(deleted_from_afar(s, gas, x));
            assert(leads_astray(s, store, gas, x, other));
        }
    }
    lemma_last_chain_fault(s, store, gas, roots, n + i);
}

/// Where no owners of what was deleted lead astray, the last change whose owners do is reported.
pub proof fn law_last_stray_change_is_reported<S: ObjectStore>(
    s: StoreView,
    store: S,
    sender: SuiAddress,
    gas: Seq<ObjectRef>,
    is_epoch_change: bool,
    id: ObjectID,
    path: Seq<ObjectID>,
)
    requires
        s.input_objects.dom().finite(),
        s.written.dom().finite(),
        s.deleted.dom().finite(),
        forall|x: ObjectID| #[trigger]
            s.input_objects.contains_key(x) ==> wrong_input(s, sender, gas, x) is None,
        forall|x: ObjectID| #[trigger]
            changed_from_afar(s, gas, x) ==> wrong_change(
                store.object_at(x),
                is_epoch_change,
                x,
            ) is None,
        forall|x: ObjectID| #[trigger]
            deleted_from_afar(s, gas, x) ==> wrong_deletion(store.object_at(x), x) is None,
        changed_from_afar(s, gas, id),
        stored(store, id)->0.owner is ObjectOwner,
        leads_astray(s, store, gas, id, path),
        forall|x: ObjectID, other: Seq<ObjectID>|
            changed_from_afar(s, gas, x) && stored(store, x)->0.owner is ObjectOwner && id_before(
                id,
                x,
            ) ==> !#[trigger] leads_astray(s, store, gas, x, other),
        forall|x: ObjectID, other: Seq<ObjectID>|
            deleted_from_afar(s, gas, x) ==> !#[trigger] leads_astray(s, store, gas, x, other),
    ensures
        s.ownership_outcome(store, sender, gas, is_epoch_change) == Err::<(), OwnershipError>(
            bad_end(store, path),
        ),
{
    let of_written = s.check_written(store, gas, is_epoch_change);
    let of_deleted = s.check_deleted(store, gas);
    let written = ascending(s.written.dom());
    let deleted = ascending(s.deleted.dom());
    lemma_pending(s, store, sender, gas, is_epoch_change);
    let pending = selected(written, of_written);
    let removed = selected(deleted, of_deleted);
    let roots = pending + removed;
    law_path_past_anchors_is_refused(s, store, gas, path);
    lemma_anchor(s, gas, id);
    lemma_ascending(s.written.dom());
    lemma_ascending(s.deleted.dom());
    assert(s.written.dom().contains(id));
    lemma_selected(written, of_written, id);
    let i = choose|i: int| 0 <= i < pending.len() && pending[i] == id;
    lemma_selected_ascending(written, of_written);
    assert(roots[i] == id);
    assert forall|j: int| i < j < roots.len() implies s.chain_fault(
        store,
        gas,
        #[trigger] roots[j],
    ) is None by {
        let x = roots[j];
        lemma_anchor(s, gas, x);
        if j < pending.len() {
            assert(x == pending[j]);
            assert(pending.contains(x));
            lemma_selected(written, of_written, x);
            assert(written.to_set().contains(x));
            assert(id_before(pending[i], pending[j]));
            assert(changed_from_afar(s, gas, x));
        } else {
            assert(x == removed[j - pending.len()]);
            assert(removed.contains(x));
            lemma_selected(deleted, of_deleted, x);
            assert(deleted.to_set().contains(x));
            assert(deleted_from_afar(s, gas, x));
        }
        if s.chain_fault(store, gas, x) is Some {
            let other = law_only_paths_past_anchors_are_refused(s, store, gas, x);
            assert(leads_astray(s, store, gas, x, other));
        }
    }
    lemma_last_chain_fault(s, store, gas, roots, i);
}

proof fn lemma_pending<S: ObjectStore>(
    s: StoreView,
    store: S,
    sender: SuiAddress,
    gas: Seq<ObjectRef>,
    is_epoch_change: bool,
)
    requires
        s.input_objects.dom().finite(),
        s.written.dom().finite(),
        s.deleted.dom().finite(),
        forall|x: ObjectID| #[trigger]
            s.input_objects.contains_key(x) ==> wrong_input(s, sender, gas, x) is None,
        forall|x: ObjectID| #[trigger]
            changed_from_afar(s, gas, x) ==> wrong_change(
                store.object_at(x),
                is_epoch_change,
                x,
            ) is None,
        forall|x: ObjectID| #[trigger]
            deleted_from_afar(s, gas, x) ==> wrong_deletion(store.object_at(x), x) is None,
    ensures
        s.to_authenticate(store, sender, gas, is_epoch_change) == Ok::<
            Seq<ObjectID>,
            OwnershipError,
        >(
            selected(
                ascending(s.written.dom()),
                s.check_written(store, gas, is_epoch_change),
            ) + selected(ascending(s.deleted.dom()), s.check_deleted(store, gas)),
        ),
{
    lemma_inputs_in_order(s, sender, gas);
    lemma_changes_in_order(s, store, gas, is_epoch_change);
    let step = s.check_deleted(store, gas);
    assert forall|x: ObjectID| #[trigger] s.deleted.dom().contains(x) implies step(x) is Ok by {
        assert(s.deleted.contains_key(x));
        lemma_anchor(s, gas, x);
        assert(deleted_from_afar(s, gas, x) ==> wrong_deletion(store.object_at(x), x) is None);
    }
    lemma_no_failure_of_set(s.deleted.dom(), step);
}

proof fn lemma_selected_ascending(
    ids: Seq<ObjectID>,
    step: spec_fn(ObjectID) -> Result<bool, OwnershipError>,
)
    requires
        is_ascending(ids),
    ensures
        is_ascending(selected(ids, step)),
    decreases ids.len(),
{
    reveal(Seq::filter);
    if ids.len() > 0 {
        let rest = ids.drop_last();
        assert forall|i: int, j: int| 0 <= i < j < rest.len() implies id_before(
            #[trigger] rest[i],
            #[trigger] rest[j],
        ) by {
            assert(id_before(ids[i], ids[j]));
        }
        lemma_selected_ascending(rest, step);
        let fewer = selected(rest, step);
        assert forall|i: int| 0 <= i < fewer.len() implies id_before(
            #[trigger] fewer[i],
            ids.last(),
        ) by {
            assert(fewer.contains(fewer[i]));
            lemma_selected(rest, step, fewer[i]);
            let k = choose|k: int| 0 <= k < rest.len() && rest[k] == fewer[i];
            assert(id_before(ids[k], ids[ids.len() - 1]));
        }
    }
}

} // verus!

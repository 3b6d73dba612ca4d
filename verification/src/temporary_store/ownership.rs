use crate::base_types::{
    is_system_package, spec_is_system_package, ObjectID, ObjectRef, SuiAddress,
};
use crate::error::{SuiError, SuiResult};
use crate::object::{ObjectView, Owner};
use crate::order::{ascending, keys_in_order, lemma_ascending};
use crate::storage::{found, DeleteKind, ObjectStore, WriteKind};
use crate::temporary_store::model::StoreView;
use crate::temporary_store::TemporaryStore;
use std::collections::{BTreeMap, BTreeSet};
use vstd::prelude::*;

verus! {

broadcast use vstd::laws_cmp::group_laws_cmp;

/// How a transaction can use an object that it has no right to.
#[derive(Clone, Copy, Debug, PartialEq, Eq)]
pub enum OwnershipViolation {
    /// An input belongs to an account that is not the sender.
    InputNotOwnedBySender(ObjectID),
    /// An input belongs to another object.
    InputOwnedByObject(ObjectID),
    /// A changed object did not exist.
    MutatedObjectMissing(ObjectID),
    /// A changed object is shared or belongs to an account, and is no input.
    MutatedObjectNotInput(ObjectID),
    /// An immutable object was changed, and not at the end of an epoch.
    ImmutableObjectMutated(ObjectID),
    /// An immutable object was changed that is no package of the system.
    NotASystemPackage(ObjectID),
    /// A deleted object did not exist.
    DeletedObjectMissing(ObjectID),
    /// A deleted object is shared or belongs to an account, and is no input.
    DeletedObjectNotInput(ObjectID),
    /// An immutable object was deleted.
    ImmutableObjectDeleted(ObjectID),
    /// An object that owns a changed or deleted one, directly or not, belongs to no object itself,
    /// and is no input.
    UnauthenticatedRoot { id: ObjectID, owner: Owner },
}

/// Why the check of the ownership of objects did not succeed.
#[derive(Clone, Copy, Debug, PartialEq, Eq)]
pub enum OwnershipError {
    /// A lookup in the backing store failed.
    Store(SuiError),
    /// The transaction used an object that it has no right to.
    Violation(OwnershipViolation),
}

/// Whether `id` is one of the coins that pay for gas.
pub open spec fn is_gas(gas: Seq<ObjectRef>, id: ObjectID) -> bool {
    exists|i: int| 0 <= i < gas.len() && (#[trigger] gas[i]).0 == id
}

/// The error of the first of `ids` for which `step` has one.
pub open spec fn first_failure(
    ids: Seq<ObjectID>,
    step: spec_fn(ObjectID) -> Result<bool, OwnershipError>,
) -> Option<OwnershipError>
    decreases ids.len(),
{
    if ids.len() == 0 {
        None
    } else {
        match first_failure(ids.drop_last(), step) {
            Some(error) => Some(error),
            None => match step(ids.last()) {
                Ok(_) => None,
                Err(error) => Some(error),
            },
        }
    }
}

/// Those of `ids` that `step` selects.
pub open spec fn selected(
    ids: Seq<ObjectID>,
    step: spec_fn(ObjectID) -> Result<bool, OwnershipError>,
) -> Seq<ObjectID> {
    ids.filter(|id: ObjectID| step(id) == Ok::<bool, OwnershipError>(true))
}

impl StoreView {
    /// Whether the input `id` may own other objects: it belongs to an account or is shared, and does
    /// not pay for gas. (The coins that pay for gas may belong to a sponsor.)
    pub open spec fn is_authenticated(self, gas: Seq<ObjectRef>, id: ObjectID) -> bool {
        &&& self.input_objects.contains_key(id)
        &&& !is_gas(gas, id)
        &&& self.input_objects[id].owner is AddressOwner || self.input_objects[id].owner is Shared
    }

    /// What is wrong with the owner of the input `id`.
    pub open spec fn check_input(self, sender: SuiAddress, gas: Seq<ObjectRef>) -> spec_fn(
        ObjectID,
    ) -> Result<bool, OwnershipError> {
        |id: ObjectID|
            if is_gas(gas, id) {
                Ok(false)
            } else {
                match self.input_objects[id].owner {
                    Owner::AddressOwner(address) => if address == sender {
                        Ok(false)
                    } else {
                        Err(
                            OwnershipError::Violation(
                                OwnershipViolation::InputNotOwnedBySender(id),
                            ),
                        )
                    },
                    Owner::ObjectOwner(_) => Err(
                        OwnershipError::Violation(OwnershipViolation::InputOwnedByObject(id)),
                    ),
                    _ => Ok(false),
                }
            }
    }

    /// Whether the owner of the written object `id` is still to be authenticated: it existed before
    /// the transaction, is no input, and belongs to an object.
    pub open spec fn check_written<S: ObjectStore>(
        self,
        store: S,
        gas: Seq<ObjectRef>,
        is_epoch_change: bool,
    ) -> spec_fn(ObjectID) -> Result<bool, OwnershipError> {
        |id: ObjectID|
            if self.is_authenticated(gas, id) || is_gas(gas, id) || !(self.written[id].1 is Mutate) {
                Ok(false)
            } else {
                match store.object_at(id) {
                    Err(error) => Err(OwnershipError::Store(error)),
                    Ok(None) => Err(
                        OwnershipError::Violation(OwnershipViolation::MutatedObjectMissing(id)),
                    ),
                    Ok(Some(object)) => match object.owner {
                        Owner::ObjectOwner(_) => Ok(true),
                        Owner::Immutable => if !is_epoch_change {
                            Err(
                                OwnershipError::Violation(
                                    OwnershipViolation::ImmutableObjectMutated(id),
                                ),
                            )
                        } else if !spec_is_system_package(id) {
                            Err(
                                OwnershipError::Violation(
                                    OwnershipViolation::NotASystemPackage(id),
                                ),
                            )
                        } else {
                            Ok(false)
                        },
                        _ => Err(
                            OwnershipError::Violation(
                                OwnershipViolation::MutatedObjectNotInput(id),
                            ),
                        ),
                    },
                }
            }
    }

    /// Whether the owner of the deleted object `id` is still to be authenticated.
    pub open spec fn check_deleted<S: ObjectStore>(
        self,
        store: S,
        gas: Seq<ObjectRef>,
    ) -> spec_fn(ObjectID) -> Result<bool, OwnershipError> {
        |id: ObjectID|
            if self.is_authenticated(gas, id) || is_gas(gas, id)
                || self.deleted[id].1 is UnwrapThenDelete {
                Ok(false)
            } else {
                match store.object_at(id) {
                    Err(error) => Err(OwnershipError::Store(error)),
                    Ok(None) => Err(
                        OwnershipError::Violation(OwnershipViolation::DeletedObjectMissing(id)),
                    ),
                    Ok(Some(object)) => match object.owner {
                        Owner::ObjectOwner(_) => Ok(true),
                        Owner::Immutable => Err(
                            OwnershipError::Violation(
                                OwnershipViolation::ImmutableObjectDeleted(id),
                            ),
                        ),
                        _ => Err(
                            OwnershipError::Violation(
                                OwnershipViolation::DeletedObjectNotInput(id),
                            ),
                        ),
                    },
                }
            }
    }

    /// The objects whose owners are to be authenticated: those that were changed or deleted, are no
    /// inputs, and belong to objects. Or what is wrong with an input, a written object or a deleted
    /// one, whichever comes first.
    pub open spec fn to_authenticate<S: ObjectStore>(
        self,
        store: S,
        sender: SuiAddress,
        gas: Seq<ObjectRef>,
        is_epoch_change: bool,
    ) -> Result<Seq<ObjectID>, OwnershipError> {
        let inputs = ascending(self.input_objects.dom());
        let written = ascending(self.written.dom());
        let deleted = ascending(self.deleted.dom());
        let of_written = self.check_written(store, gas, is_epoch_change);
        let of_deleted = self.check_deleted(store, gas);
        if first_failure(inputs, self.check_input(sender, gas)) is Some {
            Err(first_failure(inputs, self.check_input(sender, gas))->0)
        } else if first_failure(written, of_written) is Some {
            Err(first_failure(written, of_written)->0)
        } else if first_failure(deleted, of_deleted) is Some {
            Err(first_failure(deleted, of_deleted)->0)
        } else {
            Ok(selected(written, of_written) + selected(deleted, of_deleted))
        }
    }

    /// What is wrong with the object `id` as the owner of another one: the lookup fails, or the
    /// object does not belong to an object itself. An id under which there is no object stands for
    /// a table or the like, and is fine.
    pub open spec fn root_fault<S: ObjectStore>(self, store: S, id: ObjectID) -> Option<
        OwnershipError,
    > {
        match store.object_at(id) {
            Err(error) => Some(OwnershipError::Store(error)),
            Ok(None) => None,
            Ok(Some(object)) => if object.owner is ObjectOwner {
                None
            } else {
                Some(
                    OwnershipError::Violation(
                        OwnershipViolation::UnauthenticatedRoot { id, owner: object.owner },
                    ),
                )
            },
        }
    }

    /// The object that owns the object `id`, if that is an object that is still to be
    /// authenticated.
    pub open spec fn next_owner<S: ObjectStore>(
        self,
        store: S,
        gas: Seq<ObjectRef>,
        id: ObjectID,
    ) -> Option<ObjectID> {
        match store.object_at(id) {
            Ok(Some(object)) => match object.owner {
                Owner::ObjectOwner(parent) => if self.is_authenticated(gas, parent.object_id()) {
                    None
                } else {
                    Some(parent.object_id())
                },
                _ => None,
            },
            _ => None,
        }
    }

    /// The owner of the owner, and so on, `n` times up from the object `id`.
    pub open spec fn owner_above<S: ObjectStore>(
        self,
        store: S,
        gas: Seq<ObjectRef>,
        id: ObjectID,
        n: nat,
    ) -> Option<ObjectID>
        decreases n,
    {
        if n == 0 {
            Some(id)
        } else {
            match self.owner_above(store, gas, id, (n - 1) as nat) {
                Some(owner) => self.next_owner(store, gas, owner),
                None => None,
            }
        }
    }

    /// Whether something is wrong with the owner `n` times up from the object `id`.
    pub open spec fn faulty_above<S: ObjectStore>(
        self,
        store: S,
        gas: Seq<ObjectRef>,
        id: ObjectID,
        n: nat,
    ) -> bool {
        self.owner_above(store, gas, id, n) matches Some(owner) && self.root_fault(store, owner) is Some
    }

    /// What is wrong with the object `id` or with one of its owners, all the way up. There is at
    /// most one of them, since the way up ends there.
    pub open spec fn chain_fault<S: ObjectStore>(
        self,
        store: S,
        gas: Seq<ObjectRef>,
        id: ObjectID,
    ) -> Option<OwnershipError> {
        if exists|n: nat| self.faulty_above(store, gas, id, n) {
            let n = choose|n: nat| self.faulty_above(store, gas, id, n);
            self.root_fault(store, self.owner_above(store, gas, id, n)->0)
        } else {
            None
        }
    }

    /// What is wrong with the owners of the last of `ids` for which something is.
    pub open spec fn last_chain_fault<S: ObjectStore>(
        self,
        store: S,
        gas: Seq<ObjectRef>,
        ids: Seq<ObjectID>,
    ) -> Option<OwnershipError>
        decreases ids.len(),
    {
        if ids.len() == 0 {
            None
        } else {
            match self.chain_fault(store, gas, ids.last()) {
                Some(error) => Some(error),
                None => self.last_chain_fault(store, gas, ids.drop_last()),
            }
        }
    }

    /// The outcome of the check that every object that the transaction changed or deleted belongs,
    /// directly or not, to the sender, to a shared input, or to whoever pays for gas.
    pub open spec fn ownership_outcome<S: ObjectStore>(
        self,
        store: S,
        sender: SuiAddress,
        gas: Seq<ObjectRef>,
        is_epoch_change: bool,
    ) -> Result<(), OwnershipError> {
        match self.to_authenticate(store, sender, gas, is_epoch_change) {
            Err(error) => Err(error),
            Ok(ids) => match self.last_chain_fault(store, gas, ids) {
                Some(error) => Err(error),
                None => Ok(()),
            },
        }
    }
}

impl StoreView {
    /// Whether the transaction of `sender` has a right to what it did to the object `id`. An input
    /// belongs to the sender, or is shared or immutable, or pays for gas. What was changed or
    /// deleted is such an input and not immutable, or pays for gas, or belonged to an object with
    /// whose owners nothing is wrong, all the way up. At the end of an epoch a package of the
    /// system may be changed.
    pub open spec fn has_right_to<S: ObjectStore>(
        self,
        store: S,
        sender: SuiAddress,
        gas: Seq<ObjectRef>,
        is_epoch_change: bool,
        id: ObjectID,
    ) -> bool {
        let covered = self.is_authenticated(gas, id) || is_gas(gas, id);
        let belongs_to_object = store.object_at(id) is Ok && store.object_at(id)->Ok_0 is Some
            && store.object_at(id)->Ok_0->0.owner is ObjectOwner && self.chain_fault(
            store,
            gas,
            id,
        ) is None;
        let is_upgrade = store.object_at(id) is Ok && store.object_at(id)->Ok_0 is Some
            && store.object_at(id)->Ok_0->0.owner is Immutable && is_epoch_change
            && spec_is_system_package(id);
        &&& self.input_objects.contains_key(id) && !is_gas(gas, id) ==> {
            let owner = self.input_objects[id].owner;
            owner == Owner::AddressOwner(sender) || owner is Shared || owner is Immutable
        }
        &&& self.written.contains_key(id) && self.written[id].1 is Mutate && !covered
            ==> belongs_to_object || is_upgrade
        &&& self.deleted.contains_key(id) && !(self.deleted[id].1 is UnwrapThenDelete) && !covered
            ==> belongs_to_object
    }
}

/// Nothing fails just if no step does.
pub proof fn lemma_no_failure(
    ids: Seq<ObjectID>,
    step: spec_fn(ObjectID) -> Result<bool, OwnershipError>,
)
    ensures
        first_failure(ids, step) is None <==> forall|i: int|
            0 <= i < ids.len() ==> step(#[trigger] ids[i]) is Ok,
    decreases ids.len(),
{
    if ids.len() > 0 {
        let rest = ids.drop_last();
        lemma_no_failure(rest, step);
        assert forall|i: int| 0 <= i < rest.len() implies #[trigger] rest[i] == ids[i] by {
        }
        if first_failure(ids, step) is None {
            assert forall|i: int| 0 <= i < ids.len() implies step(#[trigger] ids[i]) is Ok by {
                if i < rest.len() {
                    assert(step(rest[i]) is Ok);
                }
            }
        }
        if forall|i: int| 0 <= i < ids.len() ==> step(#[trigger] ids[i]) is Ok {
            assert forall|i: int| 0 <= i < rest.len() implies step(#[trigger] rest[i]) is Ok by {
                assert(step(ids[i]) is Ok);
            }
            assert(step(ids[ids.len() - 1]) is Ok);
        }
    }
}

/// Nothing is wrong with the owners of any id just if nothing is with those of each.
pub proof fn lemma_no_chain_fault<S: ObjectStore>(
    s: StoreView,
    store: S,
    gas: Seq<ObjectRef>,
    ids: Seq<ObjectID>,
)
    ensures
        s.last_chain_fault(store, gas, ids) is None <==> forall|i: int|
            0 <= i < ids.len() ==> s.chain_fault(store, gas, #[trigger] ids[i]) is None,
    decreases ids.len(),
{
    if ids.len() > 0 {
        let rest = ids.drop_last();
        lemma_no_chain_fault(s, store, gas, rest);
        if s.last_chain_fault(store, gas, ids) is None {
            assert forall|i: int| 0 <= i < ids.len() implies s.chain_fault(
                store,
                gas,
                #[trigger] ids[i],
            ) is None by {
                if i < rest.len() {
                    assert(s.chain_fault(store, gas, rest[i]) is None);
                }
            }
        }
        if forall|i: int|
            0 <= i < ids.len() ==> s.chain_fault(store, gas, #[trigger] ids[i]) is None {
            assert forall|i: int| 0 <= i < rest.len() implies s.chain_fault(
                store,
                gas,
                #[trigger] rest[i],
            ) is None by {
                assert(s.chain_fault(store, gas, ids[i]) is None);
            }
            assert(s.chain_fault(store, gas, ids[ids.len() - 1]) is None);
        }
    }
}

/// What is selected.
pub proof fn lemma_selected(
    ids: Seq<ObjectID>,
    step: spec_fn(ObjectID) -> Result<bool, OwnershipError>,
    id: ObjectID,
)
    ensures
        selected(ids, step).contains(id) <==> ids.contains(id) && step(id) == Ok::<
            bool,
            OwnershipError,
        >(true),
{
    let pred = |x: ObjectID| step(x) == Ok::<bool, OwnershipError>(true);
    if selected(ids, step).contains(id) {
        let i = choose|i: int| 0 <= i < ids.filter(pred).len() && ids.filter(pred)[i] == id;
        ids.lemma_filter_pred(pred, i);
        ids.lemma_filter_contains_rev(pred, id);
    }
    if ids.contains(id) && pred(id) {
        let i = choose|i: int| 0 <= i < ids.len() && ids[i] == id;
        ids.lemma_filter_contains(pred, i);
    }
}

/// The check of ownership succeeds just if the transaction has a right to what it did to every
/// object.
pub proof fn law_ownership_of_every_object<S: ObjectStore>(
    s: StoreView,
    store: S,
    sender: SuiAddress,
    gas: Seq<ObjectRef>,
    is_epoch_change: bool,
)
    requires
        s.input_objects.dom().finite(),
        s.written.dom().finite(),
        s.deleted.dom().finite(),
    ensures
        s.ownership_outcome(store, sender, gas, is_epoch_change) is Ok <==> forall|id: ObjectID| #[trigger]
            s.has_right_to(store, sender, gas, is_epoch_change, id),
{
    let inputs = ascending(s.input_objects.dom());
    let written = ascending(s.written.dom());
    let deleted = ascending(s.deleted.dom());
    let of_input = s.check_input(sender, gas);
    let of_written = s.check_written(store, gas, is_epoch_change);
    let of_deleted = s.check_deleted(store, gas);
    lemma_ascending(s.input_objects.dom());
    lemma_ascending(s.written.dom());
    lemma_ascending(s.deleted.dom());
    lemma_no_failure(inputs, of_input);
    lemma_no_failure(written, of_written);
    lemma_no_failure(deleted, of_deleted);
    let roots = selected(written, of_written) + selected(deleted, of_deleted);
    lemma_no_chain_fault(s, store, gas, roots);
    if s.ownership_outcome(store, sender, gas, is_epoch_change) is Ok {
        assert forall|id: ObjectID| #[trigger]
            s.has_right_to(store, sender, gas, is_epoch_change, id) by {
            if s.input_objects.contains_key(id) {
                assert(s.input_objects.dom().contains(id));
                let i = choose|i: int| 0 <= i < inputs.len() && inputs[i] == id;
                assert(of_input(inputs[i]) is Ok);
            }
            if s.written.contains_key(id) {
                assert(s.written.dom().contains(id));
                let i = choose|i: int| 0 <= i < written.len() && written[i] == id;
                assert(of_written(written[i]) is Ok);
                lemma_selected(written, of_written, id);
                if selected(written, of_written).contains(id) {
                    let j = choose|j: int|
                        0 <= j < selected(written, of_written).len() && selected(
                            written,
                            of_written,
                        )[j] == id;
                    assert(roots[j] == id);
                }
            }
            if s.deleted.contains_key(id) {
                assert(s.deleted.dom().contains(id));
                let i = choose|i: int| 0 <= i < deleted.len() && deleted[i] == id;
                assert(of_deleted(deleted[i]) is Ok);
                lemma_selected(deleted, of_deleted, id);
                if selected(deleted, of_deleted).contains(id) {
                    let j = choose|j: int|
                        0 <= j < selected(deleted, of_deleted).len() && selected(
                            deleted,
                            of_deleted,
                        )[j] == id;
                    assert(roots[selected(written, of_written).len() + j] == id);
                }
            }
        }
    }
    if forall|id: ObjectID| #[trigger] s.has_right_to(store, sender, gas, is_epoch_change, id) {
        assert forall|i: int| 0 <= i < inputs.len() implies of_input(#[trigger] inputs[i]) is Ok by {
            assert(s.input_objects.dom().contains(inputs[i]));
            assert(s.has_right_to(store, sender, gas, is_epoch_change, inputs[i]));
        }
        assert forall|i: int| 0 <= i < written.len() implies of_written(
            #[trigger] written[i],
        ) is Ok by {
            assert(s.written.dom().contains(written[i]));
            assert(s.has_right_to(store, sender, gas, is_epoch_change, written[i]));
        }
        assert forall|i: int| 0 <= i < deleted.len() implies of_deleted(
            #[trigger] deleted[i],
        ) is Ok by {
            assert(s.deleted.dom().contains(deleted[i]));
            assert(s.has_right_to(store, sender, gas, is_epoch_change, deleted[i]));
        }
        assert forall|i: int| 0 <= i < roots.len() implies s.chain_fault(
            store,
            gas,
            #[trigger] roots[i],
        ) is None by {
            let id = roots[i];
            assert(s.has_right_to(store, sender, gas, is_epoch_change, id));
            lemma_selected(written, of_written, id);
            lemma_selected(deleted, of_deleted, id);
            let n = selected(written, of_written).len();
            if i < n {
                assert(selected(written, of_written)[i] == id);
                assert(written.to_set().contains(id));
            } else {
                assert(selected(deleted, of_deleted)[i - n] == id);
                assert(deleted.to_set().contains(id));
            }
        }
    }
}

proof fn lemma_failure_of_prefix(
    ids: Seq<ObjectID>,
    step: spec_fn(ObjectID) -> Result<bool, OwnershipError>,
    n: int,
)
    requires
        0 <= n <= ids.len(),
        first_failure(ids.take(n), step) is Some,
    ensures
        first_failure(ids, step) == first_failure(ids.take(n), step),
    decreases ids.len() - n,
{
    if n < ids.len() {
        assert(ids.take(n + 1).drop_last() =~= ids.take(n));
        lemma_failure_of_prefix(ids, step, n + 1);
    } else {
        assert(ids.take(n) =~= ids);
    }
}

proof fn lemma_selected_next(
    ids: Seq<ObjectID>,
    step: spec_fn(ObjectID) -> Result<bool, OwnershipError>,
    n: int,
)
    requires
        0 <= n < ids.len(),
    ensures
        step(ids[n]) == Ok::<bool, OwnershipError>(true) ==> selected(ids.take(n + 1), step)
            == selected(ids.take(n), step).push(ids[n]),
        step(ids[n]) != Ok::<bool, OwnershipError>(true) ==> selected(ids.take(n + 1), step)
            == selected(ids.take(n), step),
{
    assert(ids.take(n + 1) =~= ids.take(n).push(ids[n]));
    ids.take(n).lemma_filter_push(
        ids[n],
        |id: ObjectID| step(id) == Ok::<bool, OwnershipError>(true),
    );
}

/// Where the way up has ended, it goes no further.
pub proof fn lemma_way_up_ends<S: ObjectStore>(
    s: StoreView,
    store: S,
    gas: Seq<ObjectRef>,
    id: ObjectID,
    n: nat,
    m: nat,
)
    requires
        n <= m,
        s.owner_above(store, gas, id, n) is None,
    ensures
        s.owner_above(store, gas, id, m) is None,
    decreases m,
{
    if n < m {
        lemma_way_up_ends(s, store, gas, id, n, (m - 1) as nat);
    }
}

/// There is at most one fault on the way up.
pub proof fn lemma_one_fault<S: ObjectStore>(
    s: StoreView,
    store: S,
    gas: Seq<ObjectRef>,
    id: ObjectID,
    n: nat,
)
    requires
        s.faulty_above(store, gas, id, n),
    ensures
        s.chain_fault(store, gas, id) == s.root_fault(
            store,
            s.owner_above(store, gas, id, n)->0,
        ),
{
    let m = choose|m: nat| s.faulty_above(store, gas, id, m);
    assert(s.owner_above(store, gas, id, n + 1) is None);
    assert(s.owner_above(store, gas, id, m + 1) is None);
    if n < m {
        lemma_way_up_ends(s, store, gas, id, n + 1, m);
    }
    if m < n {
        lemma_way_up_ends(s, store, gas, id, m + 1, n);
    }
}

/// A fault of an object is where its way up ends.
pub proof fn lemma_fault_here<S: ObjectStore>(
    s: StoreView,
    store: S,
    gas: Seq<ObjectRef>,
    id: ObjectID,
)
    requires
        s.root_fault(store, id) is Some,
    ensures
        s.chain_fault(store, gas, id) == s.root_fault(store, id),
{
    assert(s.owner_above(store, gas, id, 0) == Some(id));
    assert(s.faulty_above(store, gas, id, 0));
    lemma_one_fault(s, store, gas, id, 0);
}

proof fn lemma_one_up<S: ObjectStore>(
    s: StoreView,
    store: S,
    gas: Seq<ObjectRef>,
    id: ObjectID,
    n: nat,
)
    requires
        s.next_owner(store, gas, id) is Some,
    ensures
        s.owner_above(store, gas, id, n + 1) == s.owner_above(
            store,
            gas,
            s.next_owner(store, gas, id)->0,
            n,
        ),
    decreases n,
{
    if n > 0 {
        lemma_one_up(s, store, gas, id, (n - 1) as nat);
    } else {
        assert(s.owner_above(store, gas, id, 0) == Some(id));
    }
}

/// An object without a fault has the fault of its owner.
pub proof fn lemma_fault_above<S: ObjectStore>(
    s: StoreView,
    store: S,
    gas: Seq<ObjectRef>,
    id: ObjectID,
)
    requires
        s.root_fault(store, id) is None,
        s.next_owner(store, gas, id) is Some,
    ensures
        s.chain_fault(store, gas, id) == s.chain_fault(
            store,
            gas,
            s.next_owner(store, gas, id)->0,
        ),
{
    let owner = s.next_owner(store, gas, id)->0;
    if exists|n: nat| s.faulty_above(store, gas, owner, n) {
        let n = choose|n: nat| s.faulty_above(store, gas, owner, n);
        lemma_one_up(s, store, gas, id, n);
        assert(s.faulty_above(store, gas, id, n + 1));
        lemma_one_fault(s, store, gas, id, n + 1);
        lemma_one_fault(s, store, gas, owner, n);
    } else {
        assert forall|n: nat| !s.faulty_above(store, gas, id, n) by {
            if n == 0 {
                assert(s.owner_above(store, gas, id, 0) == Some(id));
            } else {
                lemma_one_up(s, store, gas, id, (n - 1) as nat);
                assert(!s.faulty_above(store, gas, owner, (n - 1) as nat));
            }
        }
    }
}

/// Whether nothing is wrong with the object `id`, and it belongs to one of `ids`, to something that
/// is no object, or to nothing that is to be authenticated.
spec fn stays_within<S: ObjectStore>(
    s: StoreView,
    store: S,
    gas: Seq<ObjectRef>,
    ids: Set<ObjectID>,
    id: ObjectID,
) -> bool {
    &&& s.root_fault(store, id) is None
    &&& s.next_owner(store, gas, id) matches Some(owner) ==> ids.contains(owner)
        || store.object_at(owner) == Ok::<Option<ObjectView>, SuiError>(None)
}

proof fn lemma_way_up_stays<S: ObjectStore>(
    s: StoreView,
    store: S,
    gas: Seq<ObjectRef>,
    ids: Set<ObjectID>,
    id: ObjectID,
    n: nat,
)
    requires
        forall|x: ObjectID| #[trigger] ids.contains(x) ==> stays_within(s, store, gas, ids, x),
        ids.contains(id),
    ensures
        s.owner_above(store, gas, id, n) matches Some(owner) ==> ids.contains(owner)
            || store.object_at(owner) == Ok::<Option<ObjectView>, SuiError>(None),
    decreases n,
{
    if n > 0 {
        lemma_way_up_stays(s, store, gas, ids, id, (n - 1) as nat);
        if let Some(below) = s.owner_above(store, gas, id, (n - 1) as nat) {
            if ids.contains(below) {
                assert(stays_within(s, store, gas, ids, below));
            }
        }
    }
}

/// A way up that does not leave a set of objects with which nothing is wrong meets no fault, even
/// where it goes round in a circle.
proof fn lemma_no_fault_within<S: ObjectStore>(
    s: StoreView,
    store: S,
    gas: Seq<ObjectRef>,
    ids: Set<ObjectID>,
    id: ObjectID,
)
    requires
        forall|x: ObjectID| #[trigger] ids.contains(x) ==> stays_within(s, store, gas, ids, x),
        ids.contains(id),
    ensures
        s.chain_fault(store, gas, id) is None,
{
    assert forall|n: nat| !s.faulty_above(store, gas, id, n) by {
        lemma_way_up_stays(s, store, gas, ids, id, n);
        if let Some(owner) = s.owner_above(store, gas, id, n) {
            if ids.contains(owner) {
                assert(stays_within(s, store, gas, ids, owner));
            }
        }
    }
}

proof fn lemma_stays_within_more<S: ObjectStore>(
    s: StoreView,
    store: S,
    gas: Seq<ObjectRef>,
    ids: Set<ObjectID>,
    stack: Seq<ObjectID>,
)
    requires
        forall|x: ObjectID| #[trigger] ids.contains(x) ==> stays_within(s, store, gas, ids, x),
    ensures
        forall|x: ObjectID| #[trigger]
            ids.contains(x) ==> stays_within(
                s,
                store,
                gas,
                if stack.len() > 0 {
                    ids.insert(stack.last())
                } else {
                    ids
                },
                x,
            ),
{
}

spec fn number_of_ids() -> int {
    0x1_0000_0000_0000_0000_0000_0000_0000_0000int
        * 0x1_0000_0000_0000_0000_0000_0000_0000_0000int
}

spec fn id_number(id: ObjectID) -> int {
    id.0 * 0x1_0000_0000_0000_0000_0000_0000_0000_0000 + id.1
}

/// There are only so many ids.
proof fn lemma_ids_are_finite(ids: Set<ObjectID>)
    requires
        ids.finite(),
    ensures
        ids.len() <= number_of_ids(),
{
    let numbers = ids.map(|id: ObjectID| id_number(id));
    let range = vstd::set_lib::set_int_range(0, number_of_ids());
    assert(vstd::relations::injective_on(|id: ObjectID| id_number(id), ids));
    vstd::set_lib::lemma_map_size(ids, numbers, |id: ObjectID| id_number(id));
    vstd::set_lib::lemma_int_range(0, number_of_ids());
    assert(numbers.subset_of(range)) by {
        assert forall|n: int| numbers.contains(n) implies range.contains(n) by {
            let id = choose|id: ObjectID| ids.contains(id) && id_number(id) == n;
        }
    }
    vstd::set_lib::lemma_len_subset(numbers, range);
}

/// The ids of the coins that pay for gas.
fn gas_ids(gas: &[ObjectRef]) -> (ids: BTreeSet<ObjectID>)
    ensures
        forall|id: ObjectID| #[trigger] ids@.contains(id) <==> is_gas(gas@, id),
{
    let mut ids: BTreeSet<ObjectID> = BTreeSet::new();
    let mut i: usize = 0;
    while i < gas.len()
        invariant
            i <= gas@.len(),
            forall|id: ObjectID| #[trigger]
                ids@.contains(id) <==> exists|j: int| 0 <= j < i && (#[trigger] gas@[j]).0 == id,
        decreases gas@.len() - i,
    {
        ids.insert(gas[i].0);
        i = i + 1;
    }
    ids
}

impl<S: ObjectStore> TemporaryStore<S> {
    /// The objects whose owners are to be authenticated, and the inputs that may own other objects.
    fn get_objects_to_authenticate(
        &self,
        sender: &SuiAddress,
        gas: &[ObjectRef],
        is_epoch_change: bool,
    ) -> (result: Result<(Vec<ObjectID>, BTreeSet<ObjectID>), OwnershipError>)
        ensures
            result matches Err(error) ==> self@.to_authenticate(
                self.backing(),
                *sender,
                gas@,
                is_epoch_change,
            ) == Err::<Seq<ObjectID>, OwnershipError>(error),
            result matches Ok(lists) ==> {
                &&& self@.to_authenticate(self.backing(), *sender, gas@, is_epoch_change) == Ok::<
                    Seq<ObjectID>,
                    OwnershipError,
                >(lists.0@)
                &&& forall|id: ObjectID| #[trigger]
                    lists.1@.contains(id) <==> self@.is_authenticated(gas@, id)
            },
    {
        let ghost s = self@;
        let ghost store = self.backing();
        let gas_objs = gas_ids(gas);
        let mut to_authenticate: Vec<ObjectID> = Vec::new();
        let mut authenticated: BTreeSet<ObjectID> = BTreeSet::new();
        let inputs = keys_in_order(&self.input_objects);
        let written = keys_in_order(&self.written);
        let deleted = keys_in_order(&self.deleted);
        let ghost of_input = s.check_input(*sender, gas@);
        let ghost of_written = s.check_written(store, gas@, is_epoch_change);
        let ghost of_deleted = s.check_deleted(store, gas@);
        assert(s.input_objects.dom() =~= self.input_objects@.dom());
        assert(s.written.dom() =~= self.written@.dom());
        let mut i: usize = 0;
        assert(inputs@.take(0) =~= Seq::<ObjectID>::empty());
        while i < inputs.len()
            invariant
                i <= inputs@.len(),
                s == self@,
                store == self.backing(),
                inputs@ == ascending(s.input_objects.dom()),
                of_input == s.check_input(*sender, gas@),
                forall|id: ObjectID| #[trigger] gas_objs@.contains(id) <==> is_gas(gas@, id),
                forall|j: int|
                    0 <= j < inputs@.len() ==> s.input_objects.contains_key(#[trigger] inputs@[j]),
                first_failure(inputs@.take(i as int), of_input) is None,
                forall|id: ObjectID| #[trigger]
                    authenticated@.contains(id) <==> s.is_authenticated(gas@, id) && inputs@.take(
                        i as int,
                    ).contains(id),
            decreases inputs@.len() - i,
        {
            let id: ObjectID = inputs[i];
            let ghost before = authenticated@;
            proof {
                assert(s.input_objects.contains_key(inputs@[i as int]));
                assert(inputs@.take(i + 1).drop_last() =~= inputs@.take(i as int));
                assert(inputs@.take(i + 1) =~= inputs@.take(i as int).push(id));
                if of_input(id) is Err {
                    lemma_failure_of_prefix(inputs@, of_input, i + 1);
                }
            }
            if !gas_objs.contains(&id) {
                if let Some(object) = self.input_objects.get(&id) {
                    match object.owner {
                        Owner::AddressOwner(address) => {
                            if address != *sender {
                                return Err(
                                    OwnershipError::Violation(
                                        OwnershipViolation::InputNotOwnedBySender(id),
                                    ),
                                );
                            }
                            authenticated.insert(id);
                        },
                        Owner::Shared { .. } => {
                            authenticated.insert(id);
                        },
                        Owner::Immutable => {},
                        Owner::ObjectOwner(_) => {
                            return Err(
                                OwnershipError::Violation(
                                    OwnershipViolation::InputOwnedByObject(id),
                                ),
                            );
                        },
                    }
                }
            }
            assert forall|x: ObjectID| #[trigger]
                authenticated@.contains(x) <==> s.is_authenticated(gas@, x) && inputs@.take(
                    i + 1,
                ).contains(x) by {
                if inputs@.take(i as int).contains(x) {
                    let n = choose|n: int| 0 <= n < i && inputs@.take(i as int)[n] == x;
                    assert(inputs@.take(i + 1)[n] == x);
                }
                if x == id {
                    assert(inputs@.take(i + 1)[i as int] == x);
                }
            }
            i = i + 1;
        }
        proof {
            assert(inputs@.take(i as int) =~= inputs@);
            assert forall|id: ObjectID| #[trigger]
                authenticated@.contains(id) <==> s.is_authenticated(gas@, id) by {
                if s.is_authenticated(gas@, id) {
                    assert(inputs@.to_set().contains(id));
                }
            }
        }
        let mut k: usize = 0;
        proof {
            assert(written@.take(0) =~= Seq::<ObjectID>::empty());
            reveal(Seq::filter);
            assert(to_authenticate@ =~= selected(written@.take(0), of_written));
        }
        while k < written.len()
            invariant
                k <= written@.len(),
                s == self@,
                store == self.backing(),
                written@ == ascending(s.written.dom()),
                first_failure(ascending(s.input_objects.dom()), s.check_input(*sender, gas@)) is None,
                of_written == s.check_written(store, gas@, is_epoch_change),
                forall|id: ObjectID| #[trigger] gas_objs@.contains(id) <==> is_gas(gas@, id),
                forall|id: ObjectID| #[trigger]
                    authenticated@.contains(id) <==> s.is_authenticated(gas@, id),
                forall|j: int|
                    0 <= j < written@.len() ==> s.written.contains_key(#[trigger] written@[j]),
                first_failure(written@.take(k as int), of_written) is None,
                to_authenticate@ == selected(written@.take(k as int), of_written),
            decreases written@.len() - k,
        {
            let id: ObjectID = written[k];
            proof {
                assert(s.written.contains_key(written@[k as int]));
                assert(written@.take(k + 1).drop_last() =~= written@.take(k as int));
                if of_written(id) is Err {
                    lemma_failure_of_prefix(written@, of_written, k + 1);
                }
                lemma_selected_next(written@, of_written, k as int);
            }
            if !authenticated.contains(&id) && !gas_objs.contains(&id) {
                if let Some(entry) = self.written.get(&id) {
                    match entry.1 {
                        WriteKind::Mutate => {
                            match self.check_mutated(&id, is_epoch_change) {
                                Ok(pending) => {
                                    if pending {
                                        to_authenticate.push(id);
                                    }
                                },
                                Err(error) => {
                                    return Err(error);
                                },
                            }
                        },
                        WriteKind::Create | WriteKind::Unwrap => {},
                    }
                }
            }
            k = k + 1;
        }
        assert(written@.take(k as int) =~= written@);
        let ghost from_written = to_authenticate@;
        let mut n: usize = 0;
        proof {
            assert(deleted@.take(0) =~= Seq::<ObjectID>::empty());
            reveal(Seq::filter);
            assert(to_authenticate@ =~= from_written + selected(deleted@.take(0), of_deleted));
        }
        while n < deleted.len()
            invariant
                n <= deleted@.len(),
                s == self@,
                store == self.backing(),
                deleted@ == ascending(s.deleted.dom()),
                first_failure(ascending(s.input_objects.dom()), s.check_input(*sender, gas@)) is None,
                first_failure(
                    ascending(s.written.dom()),
                    s.check_written(store, gas@, is_epoch_change),
                ) is None,
                of_deleted == s.check_deleted(store, gas@),
                forall|id: ObjectID| #[trigger] gas_objs@.contains(id) <==> is_gas(gas@, id),
                forall|id: ObjectID| #[trigger]
                    authenticated@.contains(id) <==> s.is_authenticated(gas@, id),
                forall|j: int|
                    0 <= j < deleted@.len() ==> s.deleted.contains_key(#[trigger] deleted@[j]),
                first_failure(deleted@.take(n as int), of_deleted) is None,
                to_authenticate@ == from_written + selected(deleted@.take(n as int), of_deleted),
            decreases deleted@.len() - n,
        {
            let id: ObjectID = deleted[n];
            proof {
                assert(s.deleted.contains_key(deleted@[n as int]));
                assert(deleted@.take(n + 1).drop_last() =~= deleted@.take(n as int));
                if of_deleted(id) is Err {
                    lemma_failure_of_prefix(deleted@, of_deleted, n + 1);
                }
                lemma_selected_next(deleted@, of_deleted, n as int);
            }
            if !authenticated.contains(&id) && !gas_objs.contains(&id) {
                if let Some(entry) = self.deleted.get(&id) {
                    match entry.1 {
                        DeleteKind::Normal | DeleteKind::Wrap => {
                            match self.check_removed(&id) {
                                Ok(()) => {
                                    to_authenticate.push(id);
                                },
                                Err(error) => {
                                    return Err(error);
                                },
                            }
                        },
                        DeleteKind::UnwrapThenDelete => {},
                    }
                }
            }
            assert(to_authenticate@ =~= from_written + selected(deleted@.take(n + 1), of_deleted));
            n = n + 1;
        }
        assert(deleted@.take(n as int) =~= deleted@);
        Ok((to_authenticate, authenticated))
    }

    /// Whether the owner of a changed object is still to be authenticated. The object is no input.
    fn check_mutated(&self, id: &ObjectID, is_epoch_change: bool) -> (result: Result<
        bool,
        OwnershipError,
    >)
        ensures
            forall|gas: Seq<ObjectRef>|
                !self@.is_authenticated(gas, *id) && !is_gas(gas, *id) && self@.written[*id].1 is Mutate
                    ==> result == #[trigger] self@.check_written(
                    self.backing(),
                    gas,
                    is_epoch_change,
                )(*id),
    {
        let looked_up = self.store.get_object(id);
        assert(found(looked_up) == self.backing().object_at(*id));
        match looked_up {
            Err(error) => Err(OwnershipError::Store(error)),
            Ok(None) => Err(
                OwnershipError::Violation(OwnershipViolation::MutatedObjectMissing(*id)),
            ),
            Ok(Some(object)) => match object.owner {
                Owner::ObjectOwner(_) => Ok(true),
                Owner::AddressOwner(_) | Owner::Shared { .. } => Err(
                    OwnershipError::Violation(OwnershipViolation::MutatedObjectNotInput(*id)),
                ),
                Owner::Immutable => {
                    if !is_epoch_change {
                        return Err(
                            OwnershipError::Violation(
                                OwnershipViolation::ImmutableObjectMutated(*id),
                            ),
                        );
                    }
                    if !is_system_package(*id) {
                        return Err(
                            OwnershipError::Violation(OwnershipViolation::NotASystemPackage(*id)),
                        );
                    }
                    Ok(false)
                },
            },
        }
    }

    /// Checks that a deleted object belonged to an object. The object is no input.
    fn check_removed(&self, id: &ObjectID) -> (result: Result<(), OwnershipError>)
        ensures
            forall|gas: Seq<ObjectRef>|
                !self@.is_authenticated(gas, *id) && !is_gas(gas, *id)
                    && !(self@.deleted[*id].1 is UnwrapThenDelete) ==> match result {
                    Ok(()) => (#[trigger] self@.check_deleted(self.backing(), gas))(*id) == Ok::<
                        bool,
                        OwnershipError,
                    >(true),
                    Err(error) => self@.check_deleted(self.backing(), gas)(*id) == Err::<
                        bool,
                        OwnershipError,
                    >(error),
                },
    {
        let looked_up = self.store.get_object(id);
        assert(found(looked_up) == self.backing().object_at(*id));
        match looked_up {
            Err(error) => Err(OwnershipError::Store(error)),
            Ok(None) => Err(
                OwnershipError::Violation(OwnershipViolation::DeletedObjectMissing(*id)),
            ),
            Ok(Some(object)) => match object.owner {
                Owner::ObjectOwner(_) => Ok(()),
                Owner::AddressOwner(_) | Owner::Shared { .. } => Err(
                    OwnershipError::Violation(OwnershipViolation::DeletedObjectNotInput(*id)),
                ),
                Owner::Immutable => Err(
                    OwnershipError::Violation(OwnershipViolation::ImmutableObjectDeleted(*id)),
                ),
            },
        }
    }

    /// Checks that the transaction only used objects that it has a right to: inputs belong to the
    /// sender, are shared or immutable, and what was changed or deleted without being an input
    /// belongs, over however many objects, to an input.
    ///
    /// Owners are followed upwards until they reach an input, an id under which there is no object,
    /// or an object that was met before.
    pub fn audit_ownership(
        &self,
        sender: &SuiAddress,
        gas: &[ObjectRef],
        is_epoch_change: bool,
    ) -> (result: Result<(), OwnershipError>)
        ensures
            result == self@.ownership_outcome(self.backing(), *sender, gas@, is_epoch_change),
    {
        let (mut objects_to_authenticate, mut authenticated_objects) =
            match self.get_objects_to_authenticate(sender, gas, is_epoch_change) {
            Ok(lists) => lists,
            Err(error) => {
                return Err(error);
            },
        };
        let ghost s = self@;
        let ghost store = self.backing();
        let ghost roots = objects_to_authenticate@;
        // From each object that was met to the object that covers it.
        let mut covered: BTreeMap<ObjectID, ObjectID> = BTreeMap::new();
        while objects_to_authenticate.len() > 0
            invariant
                s == self@,
                store == self.backing(),
                s.to_authenticate(store, *sender, gas@, is_epoch_change) == Ok::<
                    Seq<ObjectID>,
                    OwnershipError,
                >(roots),
                s.last_chain_fault(store, gas@, roots) == s.last_chain_fault(
                    store,
                    gas@,
                    objects_to_authenticate@,
                ),
                covered@.dom().finite(),
                forall|id: ObjectID| #[trigger]
                    authenticated_objects@.contains(id) ==> s.is_authenticated(gas@, id)
                        || covered@.contains_key(id),
                forall|id: ObjectID|
                    s.is_authenticated(gas@, id) ==> #[trigger] authenticated_objects@.contains(id),
                forall|id: ObjectID| #[trigger]
                    covered@.dom().contains(id) ==> stays_within(
                        s,
                        store,
                        gas@,
                        if objects_to_authenticate@.len() > 0 {
                            covered@.dom().insert(objects_to_authenticate@.last())
                        } else {
                            covered@.dom()
                        },
                        id,
                    ),
            decreases
                    number_of_ids() - covered@.dom().len(),
                    2 * objects_to_authenticate@.len() + if store.object_at(
                        objects_to_authenticate@.last(),
                    ) is Ok && store.object_at(objects_to_authenticate@.last())->Ok_0 is Some {
                        1int
                    } else {
                        0int
                    },
        {
            let ghost stack = objects_to_authenticate@;
            let ghost met = covered@.dom();
            let to_authenticate: ObjectID = match objects_to_authenticate.pop() {
                Some(id) => id,
                None => {
                    return Ok(());
                },
            };
            let ghost top = to_authenticate;
            assert(objects_to_authenticate@ =~= stack.drop_last());
            let looked_up = self.store.get_object(&to_authenticate);
            assert(found(looked_up) == store.object_at(top));
            match looked_up {
                Err(error) => {
                    proof {
                        lemma_fault_here(s, store, gas@, top);
                    }
                    return Err(OwnershipError::Store(error));
                },
                Ok(None) => {
                    // The id of a table or a bag, under which there is no object.
                    proof {
                        let alone = Set::<ObjectID>::empty().insert(top);
                        lemma_no_fault_within(s, store, gas@, alone, top);
                        assert forall|id: ObjectID| #[trigger]
                            met.contains(id) implies stays_within(s, store, gas@, met, id) by {
                            assert(stays_within(s, store, gas@, met.insert(top), id));
                        }
                        lemma_stays_within_more(s, store, gas@, met, objects_to_authenticate@);
                    }
                },
                Ok(Some(object)) => {
                    let parent: ObjectID = match object.owner {
                        Owner::ObjectOwner(parent) => parent.to_object_id(),
                        owner => {
                            proof {
                                lemma_fault_here(s, store, gas@, top);
                            }
                            return Err(
                                OwnershipError::Violation(
                                    OwnershipViolation::UnauthenticatedRoot {
                                        id: to_authenticate,
                                        owner,
                                    },
                                ),
                            );
                        },
                    };
                    let mut pushed = false;
                    if authenticated_objects.contains(&parent) {
                        authenticated_objects.insert(to_authenticate);
                    } else if !covered.contains_key(&parent) {
                        objects_to_authenticate.push(parent);
                        pushed = true;
                    }
                    covered.insert(to_authenticate, parent);
                    proof {
                        let now = met.insert(top);
                        assert(covered@.dom() =~= now);
                        assert forall|id: ObjectID| #[trigger]
                            now.contains(id) && id != top implies stays_within(
                            s,
                            store,
                            gas@,
                            now,
                            id,
                        ) by {
                            assert(met.contains(id));
                        }
                        if pushed {
                            lemma_fault_above(s, store, gas@, top);
                            assert(objects_to_authenticate@.drop_last() =~= stack.drop_last());
                            assert forall|id: ObjectID| #[trigger]
                                now.contains(id) implies stays_within(
                                s,
                                store,
                                gas@,
                                now.insert(parent),
                                id,
                            ) by {
                                if id != top {
                                    assert(stays_within(s, store, gas@, now, id));
                                }
                            }
                        } else {
                            assert(stays_within(s, store, gas@, now, top));
                            lemma_no_fault_within(s, store, gas@, now, top);
                            lemma_stays_within_more(s, store, gas@, now, objects_to_authenticate@);
                        }
                        lemma_ids_are_finite(now);
                        if met.contains(top) {
                            assert(now =~= met);
                            assert(stays_within(s, store, gas@, met.insert(top), top));
                        }
                    }
                },
            }
        }
        Ok(())
    }

    /// Checks that the transaction only used objects that it has a right to. Fails if a lookup in
    /// the backing store does.
    pub fn check_ownership_invariants(
        &self,
        sender: &SuiAddress,
        gas: &[ObjectRef],
        is_epoch_change: bool,
    ) -> (result: SuiResult<()>)
        requires
            !(self@.ownership_outcome(self.backing(), *sender, gas@, is_epoch_change) matches Err(
                OwnershipError::Violation(_),
            )),
        ensures
            match self@.ownership_outcome(self.backing(), *sender, gas@, is_epoch_change) {
                Ok(()) => result == Ok::<(), SuiError>(()),
                Err(OwnershipError::Store(error)) => result == Err::<(), SuiError>(error),
                Err(OwnershipError::Violation(_)) => false,
            },
    {
        match self.audit_ownership(sender, gas, is_epoch_change) {
            Ok(()) => Ok(()),
            Err(OwnershipError::Store(error)) => Err(error),
            Err(OwnershipError::Violation(_)) => Ok(()),
        }
    }
}

} // verus!

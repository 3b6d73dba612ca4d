use crate::base_types::{ObjectID, SequenceNumber};
use crate::error::{ExecutionError, InvariantViolation};
use crate::gas::SuiGasStatus;
use crate::object::{ObjectView, Owner};
use crate::order::{ascending, lemma_ascending};
use crate::storage::{ObjectStore, WriteKind};
use crate::sums::{lemma_sum_prefix, sum_over};
use crate::temporary_store::charge::{lemma_deleted_stops, lemma_written_stops, Charge};
use crate::temporary_store::commit_laws::version_in;
use crate::temporary_store::conservation::lemma_prepared_is_finite;
use crate::temporary_store::count_laws::{before, was_changed, was_removed};
use crate::temporary_store::model::StoreView;
use crate::temporary_store::ownership_laws::stored;
use vstd::prelude::*;

verus! {

/// Whether the object `id` is an input that may be changed.
pub open spec fn is_mutable_input(s: StoreView, id: ObjectID) -> bool {
    exists|i: int| 0 <= i < s.mutable_inputs.len() && #[trigger] s.mutable_inputs[i].0 == id
}

/// An object as it stands before storage is charged for: as it was written, or else as it was an
/// input, which counts as changed.
pub open spec fn touched(s: StoreView, id: ObjectID) -> (ObjectView, WriteKind) {
    if s.written.contains_key(id) {
        s.written[id]
    } else {
        (s.input_objects[id], WriteKind::Mutate)
    }
}

/// Storage is charged for everything that was written, for the gas object, and for every input that
/// may be changed and was not deleted. What was not written counts as changed without a change.
pub proof fn law_everything_touched_is_charged_for(
    s: StoreView,
    gas_object_id: Option<ObjectID>,
    id: ObjectID,
)
    requires
        gas_object_id matches Some(x) ==> s.written.contains_key(x) || s.input_objects.contains_key(
            x,
        ),
    ensures
        ({
            let after = s.prepared(gas_object_id);
            &&& after.written.contains_key(id) <==> s.written.contains_key(id) || gas_object_id
                == Some(id) || (is_mutable_input(s, id) && !s.deleted.contains_key(id))
            &&& after.written.contains_key(id) ==> {
                &&& after.written[id].1 == touched(s, id).1
                &&& after.written[id].0.data == touched(s, id).0.data
                &&& after.written[id].0.owner == touched(s, id).0.owner
                &&& after.written[id].0.storage_rebate == touched(s, id).0.storage_rebate
                &&& s.written.contains_key(id) ==> after.written[id] == s.written[id]
                &&& !s.written.contains_key(id) && gas_object_id != Some(id)
                    ==> after.written[id].0.previous_transaction == s.tx_digest
            }
            &&& after == (StoreView { written: after.written, ..s })
        }),
{
    let entered = s.with_gas_object(gas_object_id);
    if is_mutable_input(s, id) {
        let i = choose|i: int|
            0 <= i < s.mutable_inputs.len() && #[trigger] s.mutable_inputs[i].0 == id;
        assert(entered.mutable_inputs[i].0 == id);
    }
    if exists|i: int|
        0 <= i < entered.mutable_inputs.len() && (#[trigger] entered.mutable_inputs[i]).0 == id {
        let i = choose|i: int|
            0 <= i < entered.mutable_inputs.len() && (#[trigger] entered.mutable_inputs[i]).0 == id;
        assert(s.mutable_inputs[i].0 == id);
    }
}

/// Charging for storage changes no object but for its storage rebate and the record of who wrote it
/// last, and touches nothing of the store but what was written, whether it succeeds or not.
pub proof fn law_charging_for_storage_changes_no_object<S: ObjectStore>(
    s: StoreView,
    backing: S,
    gas: SuiGasStatus,
    gas_object_id: Option<ObjectID>,
    id: ObjectID,
)
    requires
        gas_object_id matches Some(x) ==> s.written.contains_key(x) || s.input_objects.contains_key(
            x,
        ),
    ensures
        ({
            let after = s.charge_storage(backing, gas, gas_object_id);
            &&& after.written.contains_key(id) <==> s.written.contains_key(id) || gas_object_id
                == Some(id) || (is_mutable_input(s, id) && !s.deleted.contains_key(id))
            &&& after.written.contains_key(id) ==> {
                &&& after.written[id].1 == touched(s, id).1
                &&& after.written[id].0.data == touched(s, id).0.data
                &&& after.written[id].0.owner == touched(s, id).0.owner
            }
            &&& after == (StoreView { written: after.written, ..s })
        }),
{
    law_everything_touched_is_charged_for(s, gas_object_id, id);
    let prepared = s.prepared(gas_object_id);
    assert(prepared.repriced(gas).written.dom() =~= prepared.written.dom());
    if prepared.written.contains_key(id) {
        assert(prepared.repriced(gas).written.dom().contains(id));
    }
}

/// The price of the storage of a written object.
pub open spec fn price(s: StoreView, gas: SuiGasStatus) -> spec_fn(ObjectID) -> int {
    |id: ObjectID|
        if gas.charge {
            s.written[id].0.size() * gas.storage_gas_price
        } else {
            0
        }
}

/// The storage rebate that a written object had before the transaction.
pub open spec fn changed_rebate<S: ObjectStore>(s: StoreView, store: S) -> spec_fn(ObjectID) -> int {
    |id: ObjectID|
        if was_changed(s, id) {
            before(s, store, id).storage_rebate as int
        } else {
            0
        }
}

/// The storage rebate that a deleted object had before the transaction.
pub open spec fn removed_rebate<S: ObjectStore>(s: StoreView, store: S) -> spec_fn(ObjectID) -> int {
    |id: ObjectID|
        if was_removed(s, id) {
            before(s, store, id).storage_rebate as int
        } else {
            0
        }
}

/// Whether the object `id` was an input, or is in the backing store at `version`.
pub open spec fn existed_at<S: ObjectStore>(
    s: StoreView,
    store: S,
    id: ObjectID,
    version: SequenceNumber,
) -> bool {
    s.input_objects.contains_key(id) || (stored(store, id) is Some && version_in(
        stored(store, id)->0.data,
    ) == version)
}

/// Whether the error is one that the lookup of the object `id` at `version` gives: it is missing, or
/// has another version.
pub open spec fn is_lookup_error<S: ObjectStore>(
    s: StoreView,
    store: S,
    id: ObjectID,
    version: SequenceNumber,
    error: ExecutionError,
) -> bool {
    &&& !s.input_objects.contains_key(id)
    &&& error == ExecutionError::InvariantViolation(
        if stored(store, id) is None {
            InvariantViolation::OldObjectMissing
        } else {
            InvariantViolation::UnexpectedOldVersion
        },
    )
    &&& stored(store, id) is Some ==> version_in(stored(store, id)->0.data) != version
}

/// The storage rebate and the size of an object before the transaction are those of the input, or
/// else of the object in the backing store, where it must have the expected version.
pub proof fn law_rebates_come_from_before<S: ObjectStore>(
    s: StoreView,
    store: S,
    id: ObjectID,
    version: SequenceNumber,
)
    ensures
        s.input_rebate_and_size(store, id, version) is Ok <==> existed_at(s, store, id, version),
        existed_at(s, store, id, version) ==> s.input_rebate_and_size(store, id, version) == Ok::<
            (u64, nat),
            ExecutionError,
        >((before(s, store, id).storage_rebate, before(s, store, id).size())),
        !existed_at(s, store, id, version) ==> is_lookup_error(
            s,
            store,
            id,
            version,
            s.input_rebate_and_size(store, id, version)->Err_0,
        ),
{
}

/// Whether two meters differ in nothing but what was counted for storage.
pub open spec fn is_same_meter(a: SuiGasStatus, b: SuiGasStatus) -> bool {
    b == (SuiGasStatus {
        storage_cost: b.storage_cost,
        storage_rebate: b.storage_rebate,
        unmetered_storage_rebate: b.unmetered_storage_rebate,
        ..a
    })
}

/// Whether `after` is `before` with `rebate` and `cost` counted: as such by a meter that charges,
/// and the rebate apart by one that does not.
pub open spec fn has_counted(
    before: SuiGasStatus,
    after: SuiGasStatus,
    rebate: int,
    cost: int,
) -> bool {
    &&& is_same_meter(before, after)
    &&& before.charge ==> after.storage_rebate == before.storage_rebate + rebate
        && after.storage_cost == before.storage_cost + cost && after.unmetered_storage_rebate
        == before.unmetered_storage_rebate
    &&& !before.charge ==> after.storage_rebate == before.storage_rebate && after.storage_cost
        == before.storage_cost && after.unmetered_storage_rebate == before.unmetered_storage_rebate
        + rebate
}

/// Whether the budget covers `cost` more for storage.
pub open spec fn covers(gas: SuiGasStatus, cost: int) -> bool {
    gas.charge ==> gas.computation_cost + gas.storage_cost + cost <= gas.gas_budget
}

/// Whether every object of `ids` that was changed existed before at the version it was changed at.
pub open spec fn all_existed<S: ObjectStore>(s: StoreView, store: S, ids: Seq<ObjectID>) -> bool {
    forall|i: int|
        0 <= i < ids.len() && was_changed(s, #[trigger] ids[i]) ==> existed_at(
            s,
            store,
            ids[i],
            version_in(s.written[ids[i]].0.data),
        )
}

/// Whether every object of `ids` that was deleted existed before at the version it was deleted at.
pub open spec fn all_removed_existed<S: ObjectStore>(
    s: StoreView,
    store: S,
    ids: Seq<ObjectID>,
) -> bool {
    forall|i: int|
        0 <= i < ids.len() && was_removed(s, #[trigger] ids[i]) ==> existed_at(
            s,
            store,
            ids[i],
            s.deleted[ids[i]].0,
        )
}

proof fn lemma_written_charge<S: ObjectStore>(
    s: StoreView,
    store: S,
    gas: SuiGasStatus,
    ids: Seq<ObjectID>,
)
    requires
        gas.wf(),
        gas.counted_rebate() + sum_over(ids, s.written_rebate(store)) <= u64::MAX,
    ensures
        ({
            let charge = s.charge_written(store, gas, ids);
            let cost = sum_over(ids, price(s, gas));
            &&& 0 <= cost
            &&& charge.gas.wf()
            &&& is_same_meter(gas, charge.gas)
            &&& charge.failed is None <==> all_existed(s, store, ids) && covers(gas, cost)
            &&& charge.failed is None ==> {
                &&& has_counted(gas, charge.gas, sum_over(ids, changed_rebate(s, store)), cost)
                &&& sum_over(ids, s.written_rebate(store)) == sum_over(
                    ids,
                    changed_rebate(s, store),
                )
                &&& forall|i: int|
                    0 <= i < ids.len() ==> 0 <= price(s, gas)(#[trigger] ids[i]) <= u64::MAX
            }
            &&& charge.failed matches Some(error) ==> {
                ||| error == ExecutionError::InsufficientGas && !covers(gas, cost)
                ||| exists|i: int|
                    #![trigger ids[i]]
                    0 <= i < ids.len() && was_changed(s, ids[i]) && is_lookup_error(
                        s,
                        store,
                        ids[i],
                        version_in(s.written[ids[i]].0.data),
                        error,
                    )
            }
        }),
    decreases ids.len(),
{
    if ids.len() > 0 {
        let rest = ids.drop_last();
        let n = ids.len() - 1;
        let id = ids[n];
        let size = s.written[id].0.size();
        lemma_sum_prefix(ids, s.written_rebate(store), n);
        assert(ids.take(n) =~= rest);
        lemma_written_charge(s, store, gas, rest);
        let so_far = s.charge_written(store, gas, rest);
        law_rebates_come_from_before(s, store, id, version_in(s.written[id].0.data));
        assert(0 <= size * gas.storage_gas_price) by (nonlinear_arith)
            requires
                0 <= size,
                0 <= gas.storage_gas_price,
        ;
        assert(gas.price_of(size) == price(s, gas)(id));
        assert(so_far.gas.price_of(size) == gas.price_of(size));
        assert forall|i: int| 0 <= i < rest.len() implies #[trigger] rest[i] == ids[i] by {
        }
        assert(all_existed(s, store, ids) <==> all_existed(s, store, rest) && (was_changed(s, id)
            ==> existed_at(s, store, id, version_in(s.written[id].0.data)))) by {
            if all_existed(s, store, ids) {
                assert(was_changed(s, ids[n]) ==> existed_at(
                    s,
                    store,
                    ids[n],
                    version_in(s.written[ids[n]].0.data),
                ));
                assert forall|i: int| 0 <= i < rest.len() && was_changed(
                    s,
                    #[trigger] rest[i],
                ) implies existed_at(
                    s,
                    store,
                    rest[i],
                    version_in(s.written[rest[i]].0.data),
                ) by {
                    assert(was_changed(s, ids[i]));
                }
            }
            if all_existed(s, store, rest) && (was_changed(s, id) ==> existed_at(
                s,
                store,
                id,
                version_in(s.written[id].0.data),
            )) {
                assert forall|i: int| 0 <= i < ids.len() && was_changed(
                    s,
                    #[trigger] ids[i],
                ) implies existed_at(
                    s,
                    store,
                    ids[i],
                    version_in(s.written[ids[i]].0.data),
                ) by {
                    if i < n {
                        assert(was_changed(s, rest[i]));
                    }
                }
            }
        }
        let charge = s.charge_written(store, gas, ids);
        if charge.failed is None {
            assert forall|i: int| 0 <= i < ids.len() implies 0 <= price(s, gas)(#[trigger] ids[i])
                <= u64::MAX by {
                if i < n {
                    assert(0 <= price(s, gas)(rest[i]) <= u64::MAX);
                }
            }
        }
        if let Some(error) = so_far.failed {
            if !(error == ExecutionError::InsufficientGas && !covers(
                gas,
                sum_over(rest, price(s, gas)),
            )) {
                let i = choose|i: int|
                    #![trigger rest[i]]
                    0 <= i < rest.len() && was_changed(s, rest[i]) && is_lookup_error(
                        s,
                        store,
                        rest[i],
                        version_in(s.written[rest[i]].0.data),
                        error,
                    );
                assert(ids[i] == rest[i]);
            }
        }
    }
}

proof fn lemma_deleted_charge<S: ObjectStore>(
    s: StoreView,
    store: S,
    start: Charge,
    ids: Seq<ObjectID>,
)
    requires
        start.gas.wf(),
        start.gas.counted_rebate() + sum_over(ids, s.deleted_rebate(store)) <= u64::MAX,
    ensures
        ({
            let charge = s.charge_deleted(store, start, ids);
            &&& charge.gas.wf()
            &&& is_same_meter(start.gas, charge.gas)
            &&& start.failed is Some ==> charge == start
            &&& start.failed is None ==> {
                &&& charge.failed is None <==> all_removed_existed(s, store, ids)
                &&& charge.failed is None ==> has_counted(
                    start.gas,
                    charge.gas,
                    sum_over(ids, removed_rebate(s, store)),
                    0,
                ) && sum_over(ids, s.deleted_rebate(store)) == sum_over(
                    ids,
                    removed_rebate(s, store),
                )
                &&& charge.failed matches Some(error) ==> exists|i: int|
                    #![trigger ids[i]]
                    0 <= i < ids.len() && was_removed(s, ids[i]) && is_lookup_error(
                        s,
                        store,
                        ids[i],
                        s.deleted[ids[i]].0,
                        error,
                    )
            }
        }),
    decreases ids.len(),
{
    if ids.len() > 0 {
        let rest = ids.drop_last();
        let n = ids.len() - 1;
        let id = ids[n];
        lemma_sum_prefix(ids, s.deleted_rebate(store), n);
        assert(ids.take(n) =~= rest);
        lemma_deleted_charge(s, store, start, rest);
        let so_far = s.charge_deleted(store, start, rest);
        law_rebates_come_from_before(s, store, id, s.deleted[id].0);
        assert(so_far.gas.price_of(0) == 0);
        assert forall|i: int| 0 <= i < rest.len() implies #[trigger] rest[i] == ids[i] by {
        }
        assert(all_removed_existed(s, store, ids) <==> all_removed_existed(s, store, rest) && (
        was_removed(s, id) ==> existed_at(s, store, id, s.deleted[id].0))) by {
            if all_removed_existed(s, store, ids) {
                assert(was_removed(s, ids[n]) ==> existed_at(
                    s,
                    store,
                    ids[n],
                    s.deleted[ids[n]].0,
                ));
                assert forall|i: int| 0 <= i < rest.len() && was_removed(
                    s,
                    #[trigger] rest[i],
                ) implies existed_at(s, store, rest[i], s.deleted[rest[i]].0) by {
                    assert(was_removed(s, ids[i]));
                }
            }
            if all_removed_existed(s, store, rest) && (was_removed(s, id) ==> existed_at(
                s,
                store,
                id,
                s.deleted[id].0,
            )) {
                assert forall|i: int| 0 <= i < ids.len() && was_removed(
                    s,
                    #[trigger] ids[i],
                ) implies existed_at(s, store, ids[i], s.deleted[ids[i]].0) by {
                    if i < n {
                        assert(was_removed(s, rest[i]));
                    }
                }
            }
        }
        if start.failed is None {
            if let Some(error) = so_far.failed {
                let i = choose|i: int|
                    #![trigger rest[i]]
                    0 <= i < rest.len() && was_removed(s, rest[i]) && is_lookup_error(
                        s,
                        store,
                        rest[i],
                        s.deleted[rest[i]].0,
                        error,
                    );
                assert(ids[i] == rest[i]);
            }
        }
    }
}

/// Storage can be charged for just if everything that was changed or deleted existed before at its
/// version, and the budget covers the price of everything that was written. The meter then has
/// counted that price, and the rebates that everything changed or deleted had before. If it cannot,
/// either the budget does not cover the price, or a lookup of such an object gave the error.
pub proof fn law_storage_is_charged_for_what_it_takes<S: ObjectStore>(
    s: StoreView,
    store: S,
    gas: SuiGasStatus,
)
    requires
        gas.wf(),
        s.written.dom().finite(),
        s.deleted.dom().finite(),
        gas.counted_rebate() + s.total_rebate(store) <= u64::MAX,
    ensures
        ({
            let charge = s.storage_charge(store, gas);
            let written = ascending(s.written.dom());
            let deleted = ascending(s.deleted.dom());
            let cost = sum_over(written, price(s, gas));
            let rebate = sum_over(written, changed_rebate(s, store)) + sum_over(
                deleted,
                removed_rebate(s, store),
            );
            &&& charge.failed is None <==> all_existed(s, store, written) && all_removed_existed(
                s,
                store,
                deleted,
            ) && covers(gas, cost)
            &&& charge.failed is None ==> has_counted(gas, charge.gas, rebate, cost)
            &&& is_same_meter(gas, charge.gas)
            &&& charge.failed matches Some(error) ==> {
                ||| error == ExecutionError::InsufficientGas && !covers(gas, cost)
                ||| exists|id: ObjectID| #[trigger]
                    s.written.contains_key(id) && was_changed(s, id) && is_lookup_error(
                        s,
                        store,
                        id,
                        version_in(s.written[id].0.data),
                        error,
                    )
                ||| exists|id: ObjectID| #[trigger]
                    s.deleted.contains_key(id) && was_removed(s, id) && is_lookup_error(
                        s,
                        store,
                        id,
                        s.deleted[id].0,
                        error,
                    )
            }
        }),
{
    let written = ascending(s.written.dom());
    let deleted = ascending(s.deleted.dom());
    lemma_ascending(s.written.dom());
    lemma_ascending(s.deleted.dom());
    lemma_sum_prefix(written, s.written_rebate(store), written.len() as int);
    lemma_sum_prefix(deleted, s.deleted_rebate(store), deleted.len() as int);
    assert(written.take(written.len() as int) =~= written);
    assert(deleted.take(deleted.len() as int) =~= deleted);
    let start = s.charge_written(store, gas, written);
    lemma_written_charge(s, store, gas, written);
    if start.failed is None {
        lemma_deleted_charge(s, store, start, deleted);
    } else {
        lemma_stopped_charge(s, store, start, deleted);
    }
    let charge = s.storage_charge(store, gas);
    if let Some(error) = charge.failed {
        if start.failed is Some {
            if !(error == ExecutionError::InsufficientGas && !covers(
                gas,
                sum_over(written, price(s, gas)),
            )) {
                let i = choose|i: int|
                    #![trigger written[i]]
                    0 <= i < written.len() && was_changed(s, written[i]) && is_lookup_error(
                        s,
                        store,
                        written[i],
                        version_in(s.written[written[i]].0.data),
                        error,
                    );
                assert(s.written.dom().contains(written[i]));
                assert(s.written.contains_key(written[i]));
            }
        } else {
            let i = choose|i: int|
                #![trigger deleted[i]]
                0 <= i < deleted.len() && was_removed(s, deleted[i]) && is_lookup_error(
                    s,
                    store,
                    deleted[i],
                    s.deleted[deleted[i]].0,
                    error,
                );
            assert(s.deleted.dom().contains(deleted[i]));
            assert(s.deleted.contains_key(deleted[i]));
        }
    }
}

proof fn lemma_stopped_charge<S: ObjectStore>(
    s: StoreView,
    store: S,
    start: Charge,
    ids: Seq<ObjectID>,
)
    requires
        start.failed is Some,
    ensures
        s.charge_deleted(store, start, ids) == start,
    decreases ids.len(),
{
    if ids.len() > 0 {
        lemma_stopped_charge(s, store, start, ids.drop_last());
    }
}

/// Where storage can be charged for, every written object gets the price of its storage as its
/// storage rebate, and is on record as written by the transaction, unless it is immutable.
pub proof fn law_price_becomes_the_rebate<S: ObjectStore>(
    s: StoreView,
    store: S,
    gas: SuiGasStatus,
    gas_object_id: Option<ObjectID>,
    id: ObjectID,
)
    requires
        s.wf(),
        s.may_charge_storage(store, gas, gas_object_id),
        s.prepared(gas_object_id).storage_charge(store, gas).failed is None,
        s.prepared(gas_object_id).written.contains_key(id),
    ensures
        ({
            let after = s.charge_storage(store, gas, gas_object_id).written[id].0;
            let touched = s.prepared(gas_object_id).written[id].0;
            &&& gas.charge ==> after.storage_rebate == touched.size() * gas.storage_gas_price
            &&& !gas.charge ==> after.storage_rebate == 0
            &&& after.owner != Owner::Immutable ==> after.previous_transaction == s.tx_digest
            &&& after.owner == Owner::Immutable ==> after.previous_transaction
                == touched.previous_transaction
        }),
{
    let prepared = s.prepared(gas_object_id);
    let written = ascending(prepared.written.dom());
    let deleted = ascending(prepared.deleted.dom());
    lemma_prepared_is_finite(s, gas_object_id);
    lemma_ascending(prepared.written.dom());
    lemma_sum_prefix(written, prepared.written_rebate(store), written.len() as int);
    lemma_sum_prefix(deleted, prepared.deleted_rebate(store), deleted.len() as int);
    assert(written.take(written.len() as int) =~= written);
    assert(deleted.take(deleted.len() as int) =~= deleted);
    lemma_written_charge(prepared, store, gas, written);
    let start = prepared.charge_written(store, gas, written);
    if start.failed is Some {
        lemma_stopped_charge(prepared, store, start, deleted);
    }
    assert(prepared.written.dom().contains(id));
    let i = choose|i: int| 0 <= i < written.len() && written[i] == id;
    assert(0 <= price(prepared, gas)(written[i]) <= u64::MAX);
}

/// The bytes of a written object, after the transaction and before it.
pub open spec fn changed_bytes<S: ObjectStore>(s: StoreView, store: S) -> spec_fn(ObjectID) -> int {
    |id: ObjectID|
        s.written[id].0.size() + if was_changed(s, id) {
            before(s, store, id).size() as int
        } else {
            0
        }
}

/// The bytes of a deleted object before the transaction.
pub open spec fn removed_bytes<S: ObjectStore>(s: StoreView, store: S) -> spec_fn(ObjectID) -> int {
    |id: ObjectID|
        if was_removed(s, id) {
            before(s, store, id).size() as int
        } else {
            0
        }
}

proof fn lemma_written_bytes<S: ObjectStore>(
    s: StoreView,
    store: S,
    gas: SuiGasStatus,
    ids: Seq<ObjectID>,
)
    ensures
        s.charge_written(store, gas, ids).failed is None ==> s.charge_written(store, gas, ids).bytes
            == sum_over(ids, changed_bytes(s, store)),
    decreases ids.len(),
{
    if ids.len() > 0 {
        let id = ids.last();
        lemma_written_bytes(s, store, gas, ids.drop_last());
        law_rebates_come_from_before(s, store, id, version_in(s.written[id].0.data));
    }
}

proof fn lemma_deleted_bytes<S: ObjectStore>(
    s: StoreView,
    store: S,
    start: Charge,
    ids: Seq<ObjectID>,
)
    ensures
        s.charge_deleted(store, start, ids).failed is None ==> start.failed is None
            && s.charge_deleted(store, start, ids).bytes == start.bytes + sum_over(
            ids,
            removed_bytes(s, store),
        ),
    decreases ids.len(),
{
    if ids.len() > 0 {
        let id = ids.last();
        lemma_deleted_bytes(s, store, start, ids.drop_last());
        law_rebates_come_from_before(s, store, id, s.deleted[id].0);
    }
}

/// The bytes that are counted when storage is charged for are those of everything that was written,
/// and of everything that was changed or deleted as it was before.
pub proof fn law_bytes_written_and_deleted_are_counted<S: ObjectStore>(
    s: StoreView,
    store: S,
    gas: SuiGasStatus,
)
    requires
        s.storage_charge(store, gas).failed is None,
    ensures
        s.storage_charge(store, gas).bytes == sum_over(
            ascending(s.written.dom()),
            changed_bytes(s, store),
        ) + sum_over(ascending(s.deleted.dom()), removed_bytes(s, store)),
{
    let written = ascending(s.written.dom());
    let start = s.charge_written(store, gas, written);
    lemma_deleted_bytes(s, store, start, ascending(s.deleted.dom()));
    lemma_written_bytes(s, store, gas, written);
}

/// The first written object that cannot be charged for decides the error: if it was changed and did
/// not exist at its version, the lookup does; and otherwise the budget, which covers everything
/// before it and not the object itself.
pub proof fn law_first_written_obstacle_decides<S: ObjectStore>(
    s: StoreView,
    store: S,
    gas: SuiGasStatus,
    i: int,
)
    requires
        gas.wf(),
        gas.counted_rebate() + s.total_rebate(store) <= u64::MAX,
        0 <= i < ascending(s.written.dom()).len(),
        all_existed(s, store, ascending(s.written.dom()).take(i)),
        covers(gas, sum_over(ascending(s.written.dom()).take(i), price(s, gas))),
    ensures
        ({
            let id = ascending(s.written.dom())[i];
            let version = version_in(s.written[id].0.data);
            let failed = s.storage_charge(store, gas).failed;
            &&& was_changed(s, id) && !existed_at(s, store, id, version) ==> failed is Some
                && is_lookup_error(s, store, id, version, failed->0)
            &&& (was_changed(s, id) ==> existed_at(s, store, id, version)) && !covers(
                gas,
                sum_over(ascending(s.written.dom()).take(i + 1), price(s, gas)),
            ) ==> failed == Some(ExecutionError::InsufficientGas)
        }),
{
    let ids = ascending(s.written.dom());
    let deleted = ascending(s.deleted.dom());
    let id = ids[i];
    let size = s.written[id].0.size();
    lemma_sum_prefix(deleted, s.deleted_rebate(store), deleted.len() as int);
    assert(deleted.take(deleted.len() as int) =~= deleted);
    lemma_sum_prefix(ids, s.written_rebate(store), i);
    lemma_written_charge(s, store, gas, ids.take(i));
    assert(ids.take(i + 1).drop_last() =~= ids.take(i));
    assert(ids.take(i + 1).last() == id);
    law_rebates_come_from_before(s, store, id, version_in(s.written[id].0.data));
    let so_far = s.charge_written(store, gas, ids.take(i));
    assert(so_far.failed is None);
    assert(so_far.gas.price_of(size) == price(s, gas)(id));
    let next = s.charge_written(store, gas, ids.take(i + 1));
    if next.failed is Some {
        lemma_written_stops(s, store, gas, ids, i + 1);
        lemma_stopped_charge(s, store, s.charge_written(store, gas, ids), deleted);
    }
}

/// Where everything written can be charged for, the first deleted object that did not exist at its
/// version decides the error.
pub proof fn law_first_deleted_obstacle_decides<S: ObjectStore>(
    s: StoreView,
    store: S,
    gas: SuiGasStatus,
    i: int,
)
    requires
        gas.wf(),
        gas.counted_rebate() + s.total_rebate(store) <= u64::MAX,
        all_existed(s, store, ascending(s.written.dom())),
        covers(gas, sum_over(ascending(s.written.dom()), price(s, gas))),
        0 <= i < ascending(s.deleted.dom()).len(),
        all_removed_existed(s, store, ascending(s.deleted.dom()).take(i)),
        ({
            let id = ascending(s.deleted.dom())[i];
            was_removed(s, id) && !existed_at(s, store, id, s.deleted[id].0)
        }),
    ensures
        ({
            let id = ascending(s.deleted.dom())[i];
            let failed = s.storage_charge(store, gas).failed;
            failed is Some && is_lookup_error(s, store, id, s.deleted[id].0, failed->0)
        }),
{
    let written = ascending(s.written.dom());
    let ids = ascending(s.deleted.dom());
    let id = ids[i];
    lemma_sum_prefix(written, s.written_rebate(store), written.len() as int);
    assert(written.take(written.len() as int) =~= written);
    lemma_sum_prefix(ids, s.deleted_rebate(store), i);
    lemma_sum_prefix(ids, s.deleted_rebate(store), ids.len() as int);
    lemma_written_charge(s, store, gas, written);
    let start = s.charge_written(store, gas, written);
    lemma_deleted_charge(s, store, start, ids.take(i));
    assert(ids.take(i + 1).drop_last() =~= ids.take(i));
    assert(ids.take(i + 1).last() == id);
    law_rebates_come_from_before(s, store, id, s.deleted[id].0);
    lemma_deleted_stops(s, store, start, ids, i + 1);
}

} // verus!

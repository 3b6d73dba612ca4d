use crate::base_types::{ObjectDigest, ObjectID, ObjectRef, SequenceNumber};
use crate::effects::TransactionEffects;
use crate::error::SuiError;
use crate::event::Event;
use crate::gas::{balance_after_gas, rebate_for_sender, SuiGasStatus, BASIS_POINTS};
use crate::inner::InnerTemporaryStore;
use crate::input_objects::{highest_version, lemma_highest_version_bounds, object_map, InputObject};
use crate::move_types::ModuleId;
use crate::object::{lemma_with_gas_balance, module_bytes, DataView, Object, ObjectView, Owner};
use crate::order::{ascending, lemma_ascending};
use crate::storage::{BackingPackageStore, DeleteKind, ObjectChangeView, ObjectStore, WriteKind};
use crate::temporary_store::charge::{same_prices, Charge};
use crate::temporary_store::commit::{
    committed, deleted_as, is_commit_of, lists_changes, may_commit_object, written_as,
};
use crate::temporary_store::model::StoreView;
use crate::temporary_store::settle::Settlement;
use crate::temporary_store::smash::{
    lemma_coins_are_inputs, lemma_merge_frame, lemma_no_gas_fault, merged_coins,
};
use vstd::prelude::*;

verus! {

/// A transaction reads what it last wrote, on record as written by it, and writing one object leaves
/// what it reads of all others alone.
pub proof fn law_read_after_write(s: StoreView, object: ObjectView, kind: WriteKind, id: ObjectID)
    ensures
        s.write_object(object, kind).read_object(object.id()) == Some(
            ObjectView { previous_transaction: s.tx_digest, ..object },
        ),
        id != object.id() ==> s.write_object(object, kind).read_object(id) == s.read_object(id),
{
}

/// Of two writes to one object the second one counts, and writes to two objects can be swapped.
pub proof fn law_last_write_counts(
    s: StoreView,
    a: ObjectView,
    first: WriteKind,
    b: ObjectView,
    second: WriteKind,
)
    ensures
        a.id() == b.id() ==> s.write_object(a, first).write_object(b, second) == s.write_object(
            b,
            second,
        ),
        a.id() != b.id() ==> s.write_object(a, first).write_object(b, second) == s.write_object(
            b,
            second,
        ).write_object(a, first),
{
    if a.id() == b.id() {
        assert(s.write_object(a, first).write_object(b, second) =~= s.write_object(b, second));
    } else {
        assert(s.write_object(a, first).write_object(b, second) =~= s.write_object(
            b,
            second,
        ).write_object(a, first));
    }
}

/// What was deleted can neither be read nor written any more, and what was written cannot be
/// deleted. Deleting an object leaves what is read of all objects alone.
pub proof fn law_no_use_after_delete(
    s: StoreView,
    id: ObjectID,
    version: SequenceNumber,
    kind: DeleteKind,
    object: ObjectView,
    write: WriteKind,
    other: ObjectID,
)
    ensures
        !s.delete_object(id, version, kind).may_read(id),
        object.id() == id ==> !s.delete_object(id, version, kind).may_write(object, write),
        !s.write_object(object, write).may_delete(object.id()),
        s.delete_object(id, version, kind).read_object(other) == s.read_object(other),
{
}

/// After everything that was written is dropped, a transaction reads its inputs.
pub proof fn law_dropped_writes_are_gone(s: StoreView, id: ObjectID)
    ensures
        s.drop_writes().may_read(id),
        s.drop_writes().read_object(id) == if s.input_objects.contains_key(id) {
            Some(s.input_objects[id])
        } else {
            None
        },
{
}

/// A set of changes writes and deletes just the objects that it names, each as it says.
pub proof fn law_changes_apply_one_by_one(
    s: StoreView,
    changes: Map<ObjectID, ObjectChangeView>,
    id: ObjectID,
)
    requires
        changes.dom().finite(),
        forall|x: ObjectID| #[trigger]
            changes.contains_key(x) ==> (changes[x] matches ObjectChangeView::Write(object, _)
                ==> object.id() == x),
    ensures
        ({
            let after = s.apply_changes(changes, ascending(changes.dom()));
            &&& changes.contains_key(id) ==> match changes[id] {
                ObjectChangeView::Write(object, kind) => {
                    &&& after.written.contains_key(id)
                    &&& after.written[id].1 == kind
                    &&& after.written[id].0 == (ObjectView {
                        previous_transaction: s.tx_digest,
                        ..object
                    })
                    &&& after.deleted.contains_key(id) <==> s.deleted.contains_key(id)
                },
                ObjectChangeView::Delete(version, kind) => {
                    &&& after.deleted.contains_key(id)
                    &&& after.deleted[id] == (version, kind)
                    &&& after.written.contains_key(id) <==> s.written.contains_key(id)
                },
            }
            &&& !changes.contains_key(id) ==> {
                &&& after.written.contains_key(id) <==> s.written.contains_key(id)
                &&& after.written[id] == s.written[id]
                &&& after.deleted.contains_key(id) <==> s.deleted.contains_key(id)
                &&& after.deleted[id] == s.deleted[id]
            }
        }),
{
    lemma_ascending(changes.dom());
    let ids = ascending(changes.dom());
    lemma_changes(s, changes, ids, id);
    if ids.contains(id) {
        assert(ids.to_set().contains(id));
    }
}

proof fn lemma_changes(
    s: StoreView,
    changes: Map<ObjectID, ObjectChangeView>,
    ids: Seq<ObjectID>,
    id: ObjectID,
)
    requires
        forall|i: int| 0 <= i < ids.len() ==> changes.contains_key(#[trigger] ids[i]),
        forall|x: ObjectID| #[trigger]
            changes.contains_key(x) ==> (changes[x] matches ObjectChangeView::Write(object, _)
                ==> object.id() == x),
    ensures
        ({
            let after = s.apply_changes(changes, ids);
            &&& after.tx_digest == s.tx_digest
            &&& after.drop_writes() == s.drop_writes()
            &&& ids.contains(id) ==> match changes[id] {
                ObjectChangeView::Write(object, kind) => {
                    &&& after.written.contains_key(id)
                    &&& after.written[id].1 == kind
                    &&& after.written[id].0 == (ObjectView {
                        previous_transaction: s.tx_digest,
                        ..object
                    })
                    &&& after.deleted.contains_key(id) <==> s.deleted.contains_key(id)
                },
                ObjectChangeView::Delete(version, kind) => {
                    &&& after.deleted.contains_key(id)
                    &&& after.deleted[id] == (version, kind)
                    &&& after.written.contains_key(id) <==> s.written.contains_key(id)
                },
            }
            &&& !ids.contains(id) ==> {
                &&& after.written.contains_key(id) <==> s.written.contains_key(id)
                &&& after.written[id] == s.written[id]
                &&& after.deleted.contains_key(id) <==> s.deleted.contains_key(id)
                &&& after.deleted[id] == s.deleted[id]
            }
        }),
    decreases ids.len(),
{
    if ids.len() > 0 {
        let rest = ids.drop_last();
        let last = ids.last();
        assert forall|i: int| 0 <= i < rest.len() implies changes.contains_key(#[trigger] rest[i]) by {
            assert(rest[i] == ids[i]);
        }
        lemma_changes(s, changes, rest, id);
        assert(changes.contains_key(ids[ids.len() - 1]));
        if ids.contains(id) && id != last {
            let i = choose|i: int| 0 <= i < ids.len() && ids[i] == id;
            assert(rest[i] == id);
        }
        if id == last {
            assert(ids[ids.len() - 1] == id);
        }
        if rest.contains(id) {
            let i = choose|i: int| 0 <= i < rest.len() && rest[i] == id;
            assert(ids[i] == id);
        }
    }
}

/// Nothing that a transaction does in the course of its execution touches what is left when
/// everything that was written is dropped: its inputs, its version and its settings.
pub proof fn law_execution_can_be_dropped(
    s: StoreView,
    object: ObjectView,
    write: WriteKind,
    id: ObjectID,
    version: SequenceNumber,
    delete: DeleteKind,
    event: Event,
    gas: Seq<ObjectRef>,
    rebate: u64,
)
    ensures
        s.write_object(object, write).drop_writes() == s.drop_writes(),
        s.delete_object(id, version, delete).drop_writes() == s.drop_writes(),
        (StoreView { events: s.events.push(event), ..s }).drop_writes() == s.drop_writes(),
        s.smash_gas(gas).drop_writes() == s.drop_writes(),
        s.conserve_rebate(rebate).drop_writes() == s.drop_writes(),
        s.drop_writes().drop_writes() == s.drop_writes(),
{
    lemma_merge_frame(
        s,
        s.input_objects[gas[0].0].gas_balance(),
        merged_coins(gas),
    );
}

/// Charging for storage can be dropped as well.
pub proof fn law_storage_charge_can_be_dropped<S: ObjectStore>(
    s: StoreView,
    backing: S,
    gas: SuiGasStatus,
    gas_object_id: Option<ObjectID>,
)
    ensures
        s.charge_storage(backing, gas, gas_object_id).drop_writes() == s.drop_writes(),
{
}

/// A set of changes can be dropped too.
pub proof fn law_changes_can_be_dropped(s: StoreView, changes: Map<ObjectID, ObjectChangeView>)
    requires
        changes.dom().finite(),
    ensures
        s.apply_changes(changes, ascending(changes.dom())).drop_writes() == s.drop_writes(),
{
    lemma_changes_dropped(s, changes, ascending(changes.dom()));
}

proof fn lemma_changes_dropped(
    s: StoreView,
    changes: Map<ObjectID, ObjectChangeView>,
    ids: Seq<ObjectID>,
)
    ensures
        s.apply_changes(changes, ids).drop_writes() == s.drop_writes(),
    decreases ids.len(),
{
    if ids.len() > 0 {
        lemma_changes_dropped(s, changes, ids.drop_last());
    }
}

/// Resetting a store brings it to where execution was about to begin: to the store at the start,
/// with the gas coins smashed. If they could be smashed then, they can be smashed again.
pub proof fn law_reset_is_a_fresh_start(start: StoreView, s: StoreView, gas: Seq<ObjectRef>)
    requires
        start.drop_writes() == start,
        s.drop_writes() == start,
        start.may_smash(gas),
        start.smash_result(gas) is Ok,
    ensures
        s.may_reset(gas),
        s.reset(gas) == start.smash_gas(gas),
        s.reset(gas).may_reset(gas),
        s.reset(gas).reset(gas) == s.reset(gas),
{
    lemma_merge_frame(
        start,
        start.input_objects[gas[0].0].gas_balance(),
        merged_coins(gas),
    );
    assert(start.smash_gas(gas).drop_writes() =~= start);
}

/// Whether every object stands under its own id, none is both written and deleted, and every written
/// one but perhaps `except` names the transaction as the one that last wrote it.
spec fn is_settled(s: StoreView, except: Option<ObjectID>) -> bool {
    &&& forall|id: ObjectID| #[trigger]
        s.input_objects.contains_key(id) ==> s.input_objects[id].id() == id
    &&& forall|id: ObjectID| #[trigger]
        s.written.contains_key(id) ==> s.written[id].0.id() == id && !s.deleted.contains_key(id) && (
        except == Some(id) || s.written[id].0.previous_transaction == s.tx_digest)
    &&& forall|i: int|
        0 <= i < s.mutable_inputs.len() ==> s.input_objects.contains_key(
            (#[trigger] s.mutable_inputs[i]).0,
        )
}

proof fn lemma_reset_is_settled(s: StoreView, gas: Seq<ObjectRef>)
    requires
        is_settled(s, None) || exists|id: ObjectID| is_settled(s, Some(id)),
        s.may_reset(gas),
    ensures
        is_settled(s.reset(gas), None),
{
    let start = s.drop_writes();
    lemma_merge_frame(start, start.input_objects[gas[0].0].gas_balance(), merged_coins(gas));
    if gas.len() > 1 {
        assert(start.first_gas_fault(gas) is None);
        lemma_no_gas_fault(start, gas, 0);
        lemma_coins_are_inputs(start, gas, 0);
        let first = start.input_objects[gas[0].0];
        let sum = start.merge_gas(gas).1->0;
        lemma_with_gas_balance(first, sum as u64);
    }
}

proof fn lemma_storage_charge_is_settled<S: ObjectStore>(
    s: StoreView,
    backing: S,
    gas: SuiGasStatus,
    gas_object_id: Option<ObjectID>,
)
    requires
        is_settled(s, None),
        gas_object_id matches Some(id) ==> s.may_read(id) && s.read_object(id) is Some,
    ensures
        is_settled(s.charge_storage(backing, gas, gas_object_id), gas_object_id),
        !s.charge_storage(backing, gas, gas_object_id).has_untouched_input(),
        gas_object_id matches Some(id) ==> s.charge_storage(
            backing,
            gas,
            gas_object_id,
        ).written.contains_key(id),
{
    let entered = s.with_gas_object(gas_object_id);
    let prepared = s.prepared(gas_object_id);
    let after = s.charge_storage(backing, gas, gas_object_id);
    assert(is_settled(entered, gas_object_id));
    assert(is_settled(prepared, gas_object_id));
    assert forall|i: int| 0 <= i < s.mutable_inputs.len() implies prepared.written.contains_key(
        (#[trigger] s.mutable_inputs[i]).0,
    ) || prepared.deleted.contains_key(s.mutable_inputs[i].0) by {
        let id = s.mutable_inputs[i].0;
        if !entered.written.contains_key(id) && !entered.deleted.contains_key(id) {
            assert(entered.mutable_inputs[i].0 == id);
            assert(entered.is_idle_input(id));
        }
    }
    assert forall|i: int| 0 <= i < after.mutable_inputs.len() implies after.written.contains_key(
        (#[trigger] after.mutable_inputs[i]).0,
    ) || after.deleted.contains_key(after.mutable_inputs[i].0) by {
        assert(s.mutable_inputs[i] == after.mutable_inputs[i]);
    }
}

/// After gas was charged for, the store is ready to be committed, whatever became of execution: no
/// object is both written and deleted, every input that may be changed is written or deleted, and
/// every written object names the transaction as the one that last wrote it.
pub proof fn law_charged_store_is_ready<S: ObjectStore>(
    before: Settlement,
    backing: S,
    gas_object_id: Option<ObjectID>,
    gas: Seq<ObjectRef>,
)
    requires
        before.store.wf(),
        before.store.is_stamped(),
        before.may_charge(backing, gas_object_id, gas),
        gas_object_id matches Some(id) ==> before.charged(
            backing,
            gas_object_id,
            gas,
        ).may_pay(id),
    ensures
        before.charged(backing, gas_object_id, gas).paid(gas_object_id).fault() is None,
{
    let computed = before.after_computation(gas);
    assert(is_settled(before.store, None));
    if computed.error is Some {
        lemma_reset_is_settled(before.store, gas);
    }
    lemma_storage_charge_is_settled(computed.store, backing, computed.gas, gas_object_id);
    let stored = computed.after_storage(backing, gas_object_id);
    if computed.storage_error(backing, gas_object_id) is Some {
        lemma_reset_is_settled(stored.store, gas);
        let again = stored.reset(gas);
        lemma_storage_charge_is_settled(again.store, backing, again.gas, gas_object_id);
    }
    let charged = before.charged(backing, gas_object_id, gas);
    let after = charged.paid(gas_object_id);
    if let Some(id) = gas_object_id {
        let coin = charged.store.read_object(id)->0;
        assert(charged.store.written.contains_key(id));
        assert(charged.paid_gas_object(id).id() == id) by {
            let summary = charged.gas.spec_summary();
            lemma_with_gas_balance(
                coin,
                balance_after_gas(
                    coin,
                    summary.spec_gas_used(),
                    rebate_for_sender(summary.storage_rebate, charged.store.storage_rebate_rate),
                ) as u64,
            );
        }
        assert forall|i: int| 0 <= i < after.mutable_inputs.len() implies after.written.contains_key(
            (#[trigger] after.mutable_inputs[i]).0,
        ) || after.deleted.contains_key(after.mutable_inputs[i].0) by {
            assert(charged.store.mutable_inputs[i] == after.mutable_inputs[i]);
        }
    }
}

/// Every Move object among the inputs is older than what the transaction writes.
pub proof fn law_inputs_are_older(inputs: Seq<InputObject>, id: ObjectID)
    requires
        object_map(inputs).contains_key(id),
    ensures
        object_map(inputs)[id].data is Move ==> object_map(inputs)[id].version().value
            < highest_version(inputs) + 1,
    decreases inputs.len(),
{
    let n = inputs.len() - 1;
    lemma_highest_version_bounds(inputs, n);
    if inputs[n].object@.id() != id {
        law_inputs_are_older(inputs.drop_last(), id);
    }
}

/// The versions of a transaction leave room: an input that is changed at the version at which it
/// was loaded, and an object that is created and can be changed later, have versions below that of
/// the transaction.
pub proof fn law_versions_leave_room(
    inputs: Seq<InputObject>,
    s: StoreView,
    object: ObjectView,
    kind: WriteKind,
)
    requires
        s.input_objects == object_map(inputs),
        s.lamport_timestamp.value == highest_version(inputs) + 1,
        s.may_write(object, kind),
        object.data is Move,
        match kind {
            WriteKind::Mutate => s.input_objects.contains_key(object.id())
                && s.input_objects[object.id()].data is Move
                && s.input_objects[object.id()].version() == object.version(),
            WriteKind::Create => !object.is_immutable(),
            WriteKind::Unwrap => false,
        },
    ensures
        object.version().value < s.lamport_timestamp.value,
{
    if kind is Mutate {
        law_inputs_are_older(inputs, object.id());
    }
}

/// Committing raises versions: every written Move object and every deleted object goes up to the
/// version of the transaction, a package that was changed goes up by one, and other packages stay
/// as they are. The references name these versions.
pub proof fn law_commit_raises_versions<F: Fn(&Object) -> ObjectDigest>(
    inner: InnerTemporaryStore,
    s: StoreView,
    digest: F,
    id: ObjectID,
)
    requires
        s.may_commit(),
        is_commit_of(inner, s, digest),
    ensures
        s.written.contains_key(id) ==> {
            let (object_ref, object, kind) = inner.written@[id];
            let before = s.written[id].0.version().value;
            &&& inner.written@.contains_key(id)
            &&& object_ref.0 == id
            &&& object_ref.1 == object@.version()
            &&& object@.data is Move ==> object@.version() == s.lamport_timestamp && before
                < object@.version().value
            &&& object@.data is Package && kind is Mutate ==> object@.version().value == before + 1
            &&& object@.data is Package && !(kind is Mutate) ==> object@.version().value == before
        },
        s.deleted.contains_key(id) ==> {
            &&& inner.deleted@.contains_key(id)
            &&& inner.deleted@[id].0 == s.lamport_timestamp
            &&& s.deleted[id].0.value < inner.deleted@[id].0.value
            &&& inner.deleted@[id].1 == s.deleted[id].1
        },
{
    if s.written.contains_key(id) {
        assert(inner.written@.dom().contains(id));
        assert(may_commit_object(s.written[id].0, s.written[id].1, s.lamport_timestamp));
    }
}

/// Every input that may be changed moves on when the transaction is committed, whether the
/// transaction changed it or not: it is written or deleted, and its version is that of the
/// transaction.
pub proof fn law_mutable_inputs_move_on<F: Fn(&Object) -> ObjectDigest>(
    inner: InnerTemporaryStore,
    s: StoreView,
    digest: F,
    i: int,
)
    requires
        s.may_commit(),
        is_commit_of(inner, s, digest),
        0 <= i < inner.mutable_inputs@.len(),
    ensures
        ({
            let id = inner.mutable_inputs@[i].0;
            &&& inner.written@.contains_key(id) != inner.deleted@.contains_key(id)
            &&& inner.written@.contains_key(id) && inner.written@[id].1@.data is Move
                ==> inner.written@[id].0.1 == s.lamport_timestamp
            &&& inner.deleted@.contains_key(id) ==> inner.deleted@[id].0 == s.lamport_timestamp
        }),
{
    let id = inner.mutable_inputs@[i].0;
    assert(s.mutable_inputs[i].0 == id);
    assert(inner.written@.dom().contains(id) <==> s.written.dom().contains(id));
    assert(s.written.contains_key(id) || s.deleted.contains_key(id));
}

/// Committing changes nothing of an object but its version, and the record of when it was shared in
/// the transaction that does that.
pub proof fn law_commit_keeps_contents(
    object: ObjectView,
    kind: WriteKind,
    lamport_timestamp: SequenceNumber,
)
    ensures
        ({
            let after = committed(object, kind, lamport_timestamp);
            &&& after.id() == object.id()
            &&& after.storage_rebate == object.storage_rebate
            &&& after.previous_transaction == object.previous_transaction
            &&& object.data matches DataView::Move(m) ==> after.data is Move
                && after.data->Move_0.contents == m.contents && after.data->Move_0.type_ == m.type_
            &&& object.data matches DataView::Package(p) ==> after.data is Package
                && after.data->Package_0.modules == p.modules
            &&& !(object.owner is Shared && kind is Create) ==> after.owner == object.owner
            &&& object.owner is Shared && kind is Create ==> after.owner == (Owner::Shared {
                initial_shared_version: lamport_timestamp,
            })
        }),
{
}

/// The storage rebate is split between the sender and the storage fund without a remainder. The
/// sender's part is its exact share rounded to the nearest, and up where both are as near.
pub proof fn law_rebate_is_split(rebate: u64, rate: u64)
    requires
        rate <= BASIS_POINTS,
    ensures
        0 <= rebate_for_sender(rebate, rate) <= rebate,
        -5000 < rebate_for_sender(rebate, rate) * BASIS_POINTS - rebate * rate <= 5000,
        rate == 0 ==> rebate_for_sender(rebate, rate) == 0,
        rate == BASIS_POINTS ==> rebate_for_sender(rebate, rate) == rebate,
{
    assert(0 <= rebate * rate <= rebate * 10000) by (nonlinear_arith)
        requires
            0 <= rate <= 10000,
            0 <= rebate,
    ;
    if rate == 0 {
        assert(rebate * rate == 0);
    }
}

impl StoreView {
    /// The sum of the balances of the input coins `gas`.
    pub open spec fn total_balance(self, gas: Seq<ObjectRef>) -> nat
        decreases gas.len(),
    {
        if gas.len() == 0 {
            0
        } else {
            self.total_balance(gas.drop_last()) + self.input_objects[gas.last().0].gas_balance()
        }
    }
}

proof fn lemma_total_balance_adds(s: StoreView, a: Seq<ObjectRef>, b: Seq<ObjectRef>)
    ensures
        s.total_balance(a + b) == s.total_balance(a) + s.total_balance(b),
    decreases b.len(),
{
    if b.len() == 0 {
        assert(a + b =~= a);
    } else {
        lemma_total_balance_adds(s, a, b.drop_last());
        assert((a + b).drop_last() =~= a + b.drop_last());
    }
}

/// The coins hold what the first one and those that are merged into it hold.
pub proof fn lemma_total_balance_of_merged(s: StoreView, gas: Seq<ObjectRef>)
    requires
        gas.len() > 1,
    ensures
        s.total_balance(gas) == s.input_objects[gas[0].0].gas_balance() + s.total_balance(
            merged_coins(gas),
        ),
{
    let n = gas.len() as int;
    let first = seq![gas[0]];
    let between = gas.subrange(1, n - 1);
    let last = seq![gas[n - 1]];
    assert(gas =~= first + between + last);
    assert(merged_coins(gas) =~= last + between);
    lemma_total_balance_adds(s, first + between, last);
    lemma_total_balance_adds(s, first, between);
    lemma_total_balance_adds(s, last, between);
    reveal_with_fuel(StoreView::total_balance, 2);
    assert(first.drop_last() =~= Seq::<ObjectRef>::empty());
    assert(last.drop_last() =~= Seq::<ObjectRef>::empty());
}

proof fn lemma_merged_balance(s: StoreView, balance: nat, others: Seq<ObjectRef>, i: int)
    requires
        s.merge_coins(balance, others).1 is Some,
        0 <= i < others.len() || i == -1,
        forall|j: int|
            0 <= j < others.len() ==> s.input_objects[(#[trigger] others[j]).0].id() == others[j].0,
    ensures
        s.merge_coins(balance, others).1 == Some(balance + s.total_balance(others)),
        balance + s.total_balance(others) <= u64::MAX || others.len() == 0,
        i >= 0 ==> {
            let after = s.merge_coins(balance, others).0;
            let coin = s.input_objects[others[i].0];
            &&& after.deleted.contains_key(others[i].0)
            &&& after.deleted[others[i].0] == (coin.version(), DeleteKind::Normal)
        },
    decreases others.len(),
{
    if others.len() > 0 {
        let rest = others.drop_last();
        assert forall|j: int| 0 <= j < rest.len() implies s.input_objects[(
        #[trigger] rest[j]).0].id() == rest[j].0 by {
            assert(rest[j] == others[j]);
        }
        assert(s.input_objects[others[others.len() - 1].0].id() == others[others.len() - 1].0);
        if i == others.len() - 1 {
            lemma_merged_balance(s, balance, rest, -1);
        } else {
            lemma_merged_balance(s, balance, rest, i);
        }
    }
}

/// Smashing gas coins keeps their SUI: the first coin then holds the balances of all, and the
/// others are deleted.
pub proof fn law_smashing_keeps_balances(s: StoreView, gas: Seq<ObjectRef>, i: int)
    requires
        s.wf(),
        s.may_smash(gas),
        s.smash_result(gas) is Ok,
        1 <= i < gas.len(),
    ensures
        ({
            let after = s.smash_gas(gas);
            let coin = after.read_object(gas[0].0)->0;
            &&& after.written.contains_key(gas[0].0)
            &&& coin.is_gas_coin()
            &&& coin.gas_balance() == s.total_balance(gas)
            &&& after.deleted.contains_key(gas[i].0)
            &&& after.deleted[gas[i].0] == (
                s.input_objects[gas[i].0].version(),
                DeleteKind::Normal,
            )
        }),
{
    let others = merged_coins(gas);
    let first = s.input_objects[gas[0].0];
    let n = gas.len() as int;
    lemma_coins_are_inputs(s, gas, 0);
    assert forall|j: int| 0 <= j < others.len() implies s.input_objects[(
    #[trigger] others[j]).0].id() == others[j].0 by {
        let k = if j == 0 {
            n - 1
        } else {
            j
        };
        assert(others[j] == gas[k]);
        lemma_coins_are_inputs(s, gas, k);
    }
    let j = if i == n - 1 {
        0
    } else {
        i
    };
    assert(others[j] == gas[i]);
    lemma_merged_balance(s, first.gas_balance(), others, j);
    lemma_merge_frame(s, first.gas_balance(), others);
    lemma_total_balance_of_merged(s, gas);
    lemma_no_gas_fault(s, gas, 0);
    lemma_with_gas_balance(first, s.total_balance(gas) as u64);
}

proof fn lemma_every_kind_once(inner: InnerTemporaryStore, ids: Seq<ObjectID>)
    ensures
        ids.filter_map(written_as(inner, WriteKind::Create)).len() + ids.filter_map(
            written_as(inner, WriteKind::Mutate),
        ).len() + ids.filter_map(written_as(inner, WriteKind::Unwrap)).len() == ids.len(),
        ids.filter_map(
            deleted_as(inner, DeleteKind::Normal, ObjectDigest::spec_deleted()),
        ).len() + ids.filter_map(
            deleted_as(inner, DeleteKind::UnwrapThenDelete, ObjectDigest::spec_deleted()),
        ).len() + ids.filter_map(
            deleted_as(inner, DeleteKind::Wrap, ObjectDigest::spec_wrapped()),
        ).len() == ids.len(),
    decreases ids.len(),
{
    reveal(Seq::filter_map);
    if ids.len() > 0 {
        lemma_every_kind_once(inner, ids.drop_last());
    }
}

proof fn lemma_filter_map_keeps<A, B>(s: Seq<A>, f: spec_fn(A) -> Option<B>, a: A, b: B)
    requires
        s.contains(a),
        f(a) == Some(b),
    ensures
        s.filter_map(f).contains(b),
    decreases s.len(),
{
    reveal(Seq::filter_map);
    let rest = s.drop_last();
    if s.last() == a {
        assert(s.filter_map(f)[rest.filter_map(f).len() as int] == b);
    } else {
        let i = choose|i: int| 0 <= i < s.len() && s[i] == a;
        assert(rest[i] == a);
        lemma_filter_map_keeps(rest, f, a, b);
        let j = choose|j: int| 0 <= j < rest.filter_map(f).len() && rest.filter_map(f)[j] == b;
        assert(s.filter_map(f)[j] == b);
    }
}

/// The effects list every written and every deleted object, each in the list of how it came about
/// and in no other.
pub proof fn law_effects_list_everything_once(
    effects: TransactionEffects,
    inner: InnerTemporaryStore,
    id: ObjectID,
)
    requires
        inner.written@.dom().finite(),
        inner.deleted@.dom().finite(),
        lists_changes(effects, inner),
    ensures
        effects.created@.len() + effects.mutated@.len() + effects.unwrapped@.len()
            == inner.written@.dom().len(),
        effects.deleted@.len() + effects.unwrapped_then_deleted@.len() + effects.wrapped@.len()
            == inner.deleted@.dom().len(),
        inner.written@.contains_key(id) ==> {
            let entry = (inner.written@[id].0, inner.written@[id].1@.owner);
            match inner.written@[id].2 {
                WriteKind::Create => effects.created@.contains(entry),
                WriteKind::Mutate => effects.mutated@.contains(entry),
                WriteKind::Unwrap => effects.unwrapped@.contains(entry),
            }
        },
        inner.deleted@.contains_key(id) ==> {
            let version = inner.deleted@[id].0;
            match inner.deleted@[id].1 {
                DeleteKind::Normal => effects.deleted@.contains(
                    (id, version, ObjectDigest::spec_deleted()),
                ),
                DeleteKind::UnwrapThenDelete => effects.unwrapped_then_deleted@.contains(
                    (id, version, ObjectDigest::spec_deleted()),
                ),
                DeleteKind::Wrap => effects.wrapped@.contains(
                    (id, version, ObjectDigest::spec_wrapped()),
                ),
            }
        },
{
    let written = ascending(inner.written@.dom());
    let deleted = ascending(inner.deleted@.dom());
    lemma_ascending(inner.written@.dom());
    lemma_ascending(inner.deleted@.dom());
    written.unique_seq_to_set();
    deleted.unique_seq_to_set();
    lemma_every_kind_once(inner, written);
    lemma_every_kind_once(inner, deleted);
    if inner.written@.contains_key(id) {
        assert(inner.written@.dom().contains(id));
        let pick = written_as(inner, inner.written@[id].2);
        lemma_filter_map_keeps(
            written,
            pick,
            id,
            (inner.written@[id].0, inner.written@[id].1@.owner),
        );
    }
    if inner.deleted@.contains_key(id) {
        assert(inner.deleted@.dom().contains(id));
        let digest = if inner.deleted@[id].1 is Wrap {
            ObjectDigest::spec_wrapped()
        } else {
            ObjectDigest::spec_deleted()
        };
        let pick = deleted_as(inner, inner.deleted@[id].1, digest);
        lemma_filter_map_keeps(deleted, pick, id, (id, inner.deleted@[id].0, digest));
    }
}

proof fn lemma_created_ids(inner: InnerTemporaryStore, ids: Seq<ObjectID>)
    ensures
        ids.filter_map(written_as(inner, WriteKind::Create)).map_values(
            |entry: (ObjectRef, Owner)| entry.0.0,
        ) == ids.filter_map(|id: ObjectID| inner.created_id(id)),
    decreases ids.len(),
{
    reveal(Seq::filter_map);
    let pick = written_as(inner, WriteKind::Create);
    let id_of = |entry: (ObjectRef, Owner)| entry.0.0;
    if ids.len() > 0 {
        lemma_created_ids(inner, ids.drop_last());
        if let Some(entry) = pick(ids.last()) {
            assert(ids.filter_map(pick) =~= ids.drop_last().filter_map(pick).push(entry));
        }
    }
    assert(ids.filter_map(pick).map_values(id_of) =~= ids.filter_map(
        |id: ObjectID| inner.created_id(id),
    ));
}

/// The created objects that the effects list are those that the committed store gives, in the same
/// order.
pub proof fn law_effects_list_the_created(effects: TransactionEffects, inner: InnerTemporaryStore)
    requires
        lists_changes(effects, inner),
    ensures
        effects.created@.map_values(|entry: (ObjectRef, Owner)| entry.0.0) == ascending(
            inner.written@.dom(),
        ).filter_map(|id: ObjectID| inner.created_id(id)),
{
    lemma_created_ids(inner, ascending(inner.written@.dom()));
}

/// A transaction sees the modules of a package that it wrote, whatever the backing store has.
pub proof fn law_written_package_is_seen<S: BackingPackageStore>(
    s: StoreView,
    backing: S,
    object: ObjectView,
    kind: WriteKind,
    module_id: ModuleId,
)
    requires
        object.data is Package,
        object.id() == module_id.address,
    ensures
        s.write_object(object, kind).module_seen(backing, module_id) == Ok::<
            Option<Seq<u8>>,
            SuiError,
        >(module_bytes(object.data->Package_0.modules@, module_id.name@)),
{
}

/// A committed object is as complete as it was when it was written.
pub proof fn law_committed_objects_are_complete<F: Fn(&Object) -> ObjectDigest>(
    inner: InnerTemporaryStore,
    s: StoreView,
    digest: F,
    id: ObjectID,
)
    requires
        s.wf(),
        is_commit_of(inner, s, digest),
        inner.written@.contains_key(id),
    ensures
        inner.written@[id].1@.wf(),
        inner.written@[id].1@.id() == id,
        inner.written@[id].1@.size() == s.written[id].0.size(),
{
    assert(s.written.dom().contains(id));
    assert(s.written.contains_key(id));
}

/// Where storage cannot be paid for, no storage rebate of a written object changes.
pub proof fn law_failed_charge_sets_no_rebate<S: ObjectStore>(
    s: StoreView,
    backing: S,
    gas: SuiGasStatus,
    gas_object_id: Option<ObjectID>,
    id: ObjectID,
)
    requires
        s.prepared(gas_object_id).storage_charge(backing, gas).failed is Some,
        s.written.contains_key(id),
    ensures
        s.charge_storage(backing, gas, gas_object_id).written.contains_key(id),
        s.charge_storage(backing, gas, gas_object_id).written[id] == s.written[id],
{
}

proof fn lemma_storage_charge_within_budget<S: ObjectStore>(
    s: StoreView,
    backing: S,
    start: Charge,
    gas: SuiGasStatus,
    ids: Seq<ObjectID>,
)
    requires
        gas.wf(),
        start.gas.wf(),
    ensures
        s.charge_written(backing, gas, ids).gas.wf(),
        same_prices(gas, s.charge_written(backing, gas, ids).gas),
        s.charge_deleted(backing, start, ids).gas.wf(),
        same_prices(start.gas, s.charge_deleted(backing, start, ids).gas),
    decreases ids.len(),
{
    if ids.len() > 0 {
        lemma_storage_charge_within_budget(s, backing, start, gas, ids.drop_last());
        let so_far = s.charge_written(backing, gas, ids.drop_last());
        let size = s.written[ids.last()].0.size();
        assert(0 <= size * so_far.gas.storage_gas_price) by (nonlinear_arith)
            requires
                0 <= size,
                0 <= so_far.gas.storage_gas_price,
        ;
    }
}

/// A transaction that pays for gas never pays more than its budget, whatever became of execution.
pub proof fn law_cost_is_within_budget<S: ObjectStore>(
    before: Settlement,
    backing: S,
    gas_object_id: Option<ObjectID>,
    gas: Seq<ObjectRef>,
)
    requires
        before.gas.charge,
        before.may_charge(backing, gas_object_id, gas),
    ensures
        ({
            let after = before.charged(backing, gas_object_id, gas);
            &&& after.gas.charge
            &&& after.gas.gas_budget == before.gas.gas_budget
            &&& after.gas.spec_summary().spec_gas_used() <= before.gas.gas_budget
        }),
{
    let computed = before.after_computation(gas);
    let prepared = computed.store.prepared(gas_object_id);
    let start = prepared.charge_written(backing, computed.gas, ascending(prepared.written.dom()));
    lemma_storage_charge_within_budget(
        prepared,
        backing,
        Charge { gas: computed.gas, bytes: 0, failed: None },
        computed.gas,
        ascending(prepared.written.dom()),
    );
    lemma_storage_charge_within_budget(
        prepared,
        backing,
        start,
        computed.gas,
        ascending(prepared.deleted.dom()),
    );
    if computed.storage_error(backing, gas_object_id) is Some {
        let again = computed.after_storage(backing, gas_object_id).reset(gas);
        let prepared = again.store.prepared(gas_object_id);
        let start = prepared.charge_written(backing, again.gas, ascending(prepared.written.dom()));
        lemma_storage_charge_within_budget(
            prepared,
            backing,
            Charge { gas: again.gas, bytes: 0, failed: None },
            again.gas,
            ascending(prepared.written.dom()),
        );
        lemma_storage_charge_within_budget(
            prepared,
            backing,
            start,
            again.gas,
            ascending(prepared.deleted.dom()),
        );
    }
}

} // verus!

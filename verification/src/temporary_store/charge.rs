use crate::base_types::{ObjectID, SequenceNumber};
use crate::error::{ExecutionError, InvariantViolation};
use crate::gas::SuiGasStatus;
use crate::object::ObjectView;
use crate::order::{ascending, is_ascending, keys_in_order};
use crate::storage::{found, DeleteKind, ObjectStore, WriteKind};
use crate::sums::{lemma_sum_prefix, sum_over};
use crate::temporary_store::model::{stamped, StoreView};
use crate::temporary_store::TemporaryStore;
use vstd::prelude::*;

verus! {

broadcast use vstd::laws_cmp::group_laws_cmp;

/// Whether the machine has a number for the size of every object of the backing store.
pub open spec fn measurable<S: ObjectStore>(store: S) -> bool {
    forall|id: ObjectID| (#[trigger] store.object_at(id)) matches Ok(Some(o)) ==> o.size() <= usize::MAX
}

/// What charging for storage came to.
pub struct Charge {
    /// The meter.
    pub gas: SuiGasStatus,
    /// The bytes of what was written or deleted, before and after.
    pub bytes: nat,
    /// What stopped it.
    pub failed: Option<ExecutionError>,
}

impl StoreView {
    /// Whether `id` is an input that may be changed and was neither written nor deleted.
    pub open spec fn is_idle_input(self, id: ObjectID) -> bool {
        &&& !self.written.contains_key(id)
        &&& !self.deleted.contains_key(id)
        &&& exists|i: int|
            0 <= i < self.mutable_inputs.len() && (#[trigger] self.mutable_inputs[i]).0 == id
    }

    /// The store after every input that may be changed, and was not, was written as it is.
    pub open spec fn with_active_inputs(self) -> StoreView {
        StoreView {
            written: Map::new(
                |id: ObjectID| self.written.contains_key(id) || self.is_idle_input(id),
                |id: ObjectID|
                    if self.written.contains_key(id) {
                        self.written[id]
                    } else {
                        (stamped(self.input_objects[id], self.tx_digest), WriteKind::Mutate)
                    },
            ),
            ..self
        }
    }

    /// The store after the gas object was entered as written, if it was not yet.
    pub open spec fn with_gas_object(self, gas_object_id: Option<ObjectID>) -> StoreView {
        match gas_object_id {
            Some(id) => if self.written.contains_key(id) {
                self
            } else {
                StoreView {
                    written: self.written.insert(
                        id,
                        (self.read_object(id)->0, WriteKind::Mutate),
                    ),
                    ..self
                }
            },
            None => self,
        }
    }

    /// The store as storage is charged for: with the gas object and every input that may be changed
    /// among what was written.
    pub open spec fn prepared(self, gas_object_id: Option<ObjectID>) -> StoreView {
        self.with_gas_object(gas_object_id).with_active_inputs()
    }

    /// The storage rebate and the size of the object `id` before the transaction: as it was an
    /// input, or else as the backing store has it, where it must have the expected version.
    pub open spec fn input_rebate_and_size<S: ObjectStore>(
        self,
        store: S,
        id: ObjectID,
        expected_version: SequenceNumber,
    ) -> Result<(u64, nat), ExecutionError> {
        if self.input_objects.contains_key(id) {
            Ok((self.input_objects[id].storage_rebate, self.input_objects[id].size()))
        } else {
            match store.object_at(id) {
                Ok(Some(object)) => if object.version() != expected_version {
                    Err(
                        ExecutionError::InvariantViolation(
                            InvariantViolation::UnexpectedOldVersion,
                        ),
                    )
                } else {
                    Ok((object.storage_rebate, object.size()))
                },
                _ => Err(ExecutionError::InvariantViolation(InvariantViolation::OldObjectMissing)),
            }
        }
    }

    /// The storage rebate and the size before the transaction of the written object `id`. What was
    /// created or unwrapped had none.
    pub open spec fn written_before<S: ObjectStore>(self, store: S, id: ObjectID) -> Result<
        (u64, nat),
        ExecutionError,
    > {
        let (object, kind) = self.written[id];
        match kind {
            WriteKind::Create | WriteKind::Unwrap => Ok((0, 0)),
            WriteKind::Mutate => self.input_rebate_and_size(store, id, object.version()),
        }
    }

    /// The storage rebate and the size before the transaction of the deleted object `id`. What was
    /// unwrapped first is counted with the object that wrapped it.
    pub open spec fn deleted_before<S: ObjectStore>(self, store: S, id: ObjectID) -> Result<
        (u64, nat),
        ExecutionError,
    > {
        let (version, kind) = self.deleted[id];
        match kind {
            DeleteKind::Wrap | DeleteKind::Normal => self.input_rebate_and_size(
                store,
                id,
                version,
            ),
            DeleteKind::UnwrapThenDelete => Ok((0, 0)),
        }
    }

    /// The charge for the written objects `ids`, one after the other, on top of `gas`.
    pub open spec fn charge_written<S: ObjectStore>(
        self,
        store: S,
        gas: SuiGasStatus,
        ids: Seq<ObjectID>,
    ) -> Charge
        decreases ids.len(),
    {
        if ids.len() == 0 {
            Charge { gas, bytes: 0, failed: None }
        } else {
            let charge = self.charge_written(store, gas, ids.drop_last());
            let new_size = self.written[ids.last()].0.size();
            charge_next(charge, self.written_before(store, ids.last()), new_size)
        }
    }

    /// The charge for the deleted objects `ids`, one after the other, on top of `start`.
    pub open spec fn charge_deleted<S: ObjectStore>(
        self,
        store: S,
        start: Charge,
        ids: Seq<ObjectID>,
    ) -> Charge
        decreases ids.len(),
    {
        if ids.len() == 0 {
            start
        } else {
            let charge = self.charge_deleted(store, start, ids.drop_last());
            charge_next(charge, self.deleted_before(store, ids.last()), 0)
        }
    }

    /// The charge for everything that was written and deleted, in the order of the ids.
    pub open spec fn storage_charge<S: ObjectStore>(self, store: S, gas: SuiGasStatus) -> Charge {
        self.charge_deleted(
            store,
            self.charge_written(store, gas, ascending(self.written.dom())),
            ascending(self.deleted.dom()),
        )
    }

    /// The rebate before the transaction of a written object.
    pub open spec fn written_rebate<S: ObjectStore>(self, store: S) -> spec_fn(ObjectID) -> int {
        |id: ObjectID|
            match self.written_before(store, id) {
                Ok(before) => before.0 as int,
                Err(_) => 0,
            }
    }

    /// The rebate before the transaction of a deleted object.
    pub open spec fn deleted_rebate<S: ObjectStore>(self, store: S) -> spec_fn(ObjectID) -> int {
        |id: ObjectID|
            match self.deleted_before(store, id) {
                Ok(before) => before.0 as int,
                Err(_) => 0,
            }
    }

    /// The bytes of a written object, before and after.
    pub open spec fn written_bytes<S: ObjectStore>(self, store: S) -> spec_fn(ObjectID) -> int {
        |id: ObjectID|
            self.written[id].0.size() + match self.written_before(store, id) {
                Ok(before) => before.1 as int,
                Err(_) => 0,
            }
    }

    /// The bytes of a deleted object.
    pub open spec fn deleted_bytes<S: ObjectStore>(self, store: S) -> spec_fn(ObjectID) -> int {
        |id: ObjectID|
            match self.deleted_before(store, id) {
                Ok(before) => before.1 as int,
                Err(_) => 0,
            }
    }

    /// The rebates before the transaction of everything that was written or deleted.
    pub open spec fn total_rebate<S: ObjectStore>(self, store: S) -> int {
        sum_over(ascending(self.written.dom()), self.written_rebate(store)) + sum_over(
            ascending(self.deleted.dom()),
            self.deleted_rebate(store),
        )
    }

    /// The bytes of everything that was written or deleted.
    pub open spec fn total_bytes<S: ObjectStore>(self, store: S) -> int {
        sum_over(ascending(self.written.dom()), self.written_bytes(store)) + sum_over(
            ascending(self.deleted.dom()),
            self.deleted_bytes(store),
        )
    }

    /// A written object with the price of its storage as its storage rebate.
    pub open spec fn repriced_entry(
        self,
        entry: (ObjectView, WriteKind),
        gas: SuiGasStatus,
    ) -> (ObjectView, WriteKind) {
        let object = ObjectView {
            storage_rebate: gas.price_of(entry.0.size()) as u64,
            ..entry.0
        };
        (
            if object.is_immutable() {
                object
            } else {
                stamped(object, self.tx_digest)
            },
            entry.1,
        )
    }

    /// The store with the price of its storage as the storage rebate of every written object.
    pub open spec fn repriced(self, gas: SuiGasStatus) -> StoreView {
        StoreView {
            written: self.written.map_values(
                |entry: (ObjectView, WriteKind)| self.repriced_entry(entry, gas),
            ),
            ..self
        }
    }

    /// Whether storage can be charged for: the gas object is at hand, and the machine has numbers
    /// for the rebates and the bytes.
    pub open spec fn may_charge_storage<S: ObjectStore>(
        self,
        store: S,
        gas: SuiGasStatus,
        gas_object_id: Option<ObjectID>,
    ) -> bool {
        &&& gas.wf()
        &&& gas_object_id matches Some(id) ==> self.may_read(id) && self.read_object(id) is Some
        &&& gas.counted_rebate() + self.prepared(gas_object_id).total_rebate(store) <= u64::MAX
        &&& self.prepared(gas_object_id).total_bytes(store) <= usize::MAX
    }

    /// The store after storage was charged for. Where that failed, no storage rebate has changed.
    pub open spec fn charge_storage<S: ObjectStore>(
        self,
        store: S,
        gas: SuiGasStatus,
        gas_object_id: Option<ObjectID>,
    ) -> StoreView {
        let prepared = self.prepared(gas_object_id);
        if prepared.storage_charge(store, gas).failed is Some {
            prepared
        } else {
            prepared.repriced(gas)
        }
    }
}

/// A charge after one more object, which had a rebate and a size before, or an error in their
/// place, and has the size `new_size` now. After a failure nothing more is charged.
pub open spec fn charge_next(
    charge: Charge,
    before: Result<(u64, nat), ExecutionError>,
    new_size: nat,
) -> Charge {
    if charge.failed is Some {
        charge
    } else {
        match before {
            Err(error) => Charge { failed: Some(error), ..charge },
            Ok((rebate, old_size)) => if charge.gas.affords(new_size) {
                Charge {
                    gas: charge.gas.charged(new_size, rebate),
                    bytes: charge.bytes + old_size + new_size,
                    failed: None,
                }
            } else {
                Charge { failed: Some(ExecutionError::InsufficientGas), ..charge }
            },
        }
    }
}

/// As long as nothing fails, the meter counts every rebate, charges keep their price, and the bytes
/// add up.
proof fn lemma_charge_written<S: ObjectStore>(
    s: StoreView,
    store: S,
    gas: SuiGasStatus,
    ids: Seq<ObjectID>,
)
    requires
        gas.wf(),
        gas.counted_rebate() + sum_over(ids, s.written_rebate(store)) <= u64::MAX,
    ensures
        ({
            let charge = s.charge_written(store, gas, ids);
            &&& charge.gas.wf()
            &&& same_prices(charge.gas, gas)
            &&& charge.failed is None ==> {
                &&& charge.gas.counted_rebate() == gas.counted_rebate() + sum_over(
                    ids,
                    s.written_rebate(store),
                )
                &&& charge.bytes == sum_over(ids, s.written_bytes(store))
            }
        }),
    decreases ids.len(),
{
    if ids.len() > 0 {
        lemma_sum_prefix(ids, s.written_rebate(store), ids.len() - 1);
        assert(ids.take(ids.len() - 1) =~= ids.drop_last());
        lemma_charge_written(s, store, gas, ids.drop_last());
    }
}

proof fn lemma_charge_deleted<S: ObjectStore>(
    s: StoreView,
    store: S,
    start: Charge,
    ids: Seq<ObjectID>,
)
    requires
        start.gas.wf(),
        start.gas.counted_rebate() + sum_over(ids, s.deleted_rebate(store)) <= u64::MAX,
    ensures
        ({
            let charge = s.charge_deleted(store, start, ids);
            &&& charge.gas.wf()
            &&& same_prices(charge.gas, start.gas)
            &&& charge.failed is None ==> {
                &&& start.failed is None
                &&& charge.gas.counted_rebate() == start.gas.counted_rebate() + sum_over(
                    ids,
                    s.deleted_rebate(store),
                )
                &&& charge.bytes == start.bytes + sum_over(ids, s.deleted_bytes(store))
            }
        }),
    decreases ids.len(),
{
    if ids.len() > 0 {
        lemma_sum_prefix(ids, s.deleted_rebate(store), ids.len() - 1);
        assert(ids.take(ids.len() - 1) =~= ids.drop_last());
        lemma_charge_deleted(s, store, start, ids.drop_last());
    }
}

/// What stops the charge for what was written, stops it for good.
pub proof fn lemma_written_stops<S: ObjectStore>(
    s: StoreView,
    store: S,
    gas: SuiGasStatus,
    ids: Seq<ObjectID>,
    n: int,
)
    requires
        0 <= n <= ids.len(),
        s.charge_written(store, gas, ids.take(n)).failed is Some,
    ensures
        s.charge_written(store, gas, ids) == s.charge_written(store, gas, ids.take(n)),
    decreases ids.len() - n,
{
    if n < ids.len() {
        assert(ids.take(n + 1).drop_last() =~= ids.take(n));
        lemma_written_stops(s, store, gas, ids, n + 1);
    } else {
        assert(ids.take(n) =~= ids);
    }
}

/// What stops the charge for what was deleted, stops it for good.
pub proof fn lemma_deleted_stops<S: ObjectStore>(
    s: StoreView,
    store: S,
    start: Charge,
    ids: Seq<ObjectID>,
    n: int,
)
    requires
        0 <= n <= ids.len(),
        s.charge_deleted(store, start, ids.take(n)).failed is Some,
    ensures
        s.charge_deleted(store, start, ids) == s.charge_deleted(store, start, ids.take(n)),
    decreases ids.len() - n,
{
    if n < ids.len() {
        assert(ids.take(n + 1).drop_last() =~= ids.take(n));
        lemma_deleted_stops(s, store, start, ids, n + 1);
    } else {
        assert(ids.take(n) =~= ids);
    }
}

/// Whether the two meters charge the same.
pub open spec fn same_prices(a: SuiGasStatus, b: SuiGasStatus) -> bool {
    a.charge == b.charge && a.storage_gas_price == b.storage_gas_price && a.gas_budget
        == b.gas_budget && a.computation_cost == b.computation_cost
}

impl<S> TemporaryStore<S> {
    /// Writes every input that may be changed, and was not, as it is, so that its version goes up.
    fn ensure_active_inputs_mutated(&mut self)
        requires
            old(self).wf(),
        ensures
            final(self).wf(),
            final(self).backing() == old(self).backing(),
            final(self)@ == old(self)@.with_active_inputs(),
    {
        let ghost start = self@;
        let mut idle: Vec<ObjectID> = Vec::new();
        let mut i: usize = 0;
        while i < self.mutable_input_refs.len()
            invariant
                i <= self.mutable_input_refs@.len(),
                *self == *old(self),
                start == self@,
                forall|k: int| 0 <= k < idle@.len() ==> start.is_idle_input(#[trigger] idle@[k]),
                forall|j: int|
                    0 <= j < i && start.is_idle_input((#[trigger] start.mutable_inputs[j]).0)
                        ==> idle@.contains(start.mutable_inputs[j].0),
            decreases self.mutable_input_refs@.len() - i,
        {
            let id: ObjectID = self.mutable_input_refs[i].0;
            let ghost before = idle@;
            assert(start.mutable_inputs[i as int].0 == id);
            if !self.written.contains_key(&id) && !self.deleted.contains_key(&id) {
                idle.push(id);
                assert(start.is_idle_input(id));
                assert(idle@[before.len() as int] == id);
                assert forall|x: ObjectID| before.contains(x) implies idle@.contains(x) by {
                    let k = choose|k: int| 0 <= k < before.len() && before[k] == x;
                    assert(idle@[k] == x);
                }
            }
            i = i + 1;
        }
        assert(forall|id: ObjectID| start.is_idle_input(id) ==> idle@.contains(id));
        let mut k: usize = 0;
        while k < idle.len()
            invariant
                k <= idle@.len(),
                self.wf(),
                start.wf(),
                start == old(self)@,
                self.backing() == old(self).backing(),
                forall|j: int| 0 <= j < idle@.len() ==> start.is_idle_input(#[trigger] idle@[j]),
                self@ == (StoreView { written: self@.written, ..start }),
                forall|id: ObjectID| #[trigger]
                    self@.written.contains_key(id) <==> start.written.contains_key(id)
                        || idle@.take(k as int).contains(id),
                forall|id: ObjectID| #[trigger]
                    self@.written.contains_key(id) ==> self@.written[id]
                        == start.with_active_inputs().written[id],
            decreases idle@.len() - k,
        {
            let id: ObjectID = idle[k];
            let ghost before = self@;
            assert(start.is_idle_input(idle@[k as int]));
            proof {
                let j = choose|j: int|
                    0 <= j < start.mutable_inputs.len() && (#[trigger] start.mutable_inputs[j]).0
                        == id;
                assert(start.input_objects.contains_key(start.mutable_inputs[j].0));
                assert(idle@.take(k + 1) =~= idle@.take(k as int).push(id));
                assert forall|x: ObjectID|
                    idle@.take(k + 1).contains(x) <==> idle@.take(k as int).contains(x) || x
                        == id by {
                    if idle@.take(k as int).contains(x) {
                        let n = choose|n: int| 0 <= n < k && idle@.take(k as int)[n] == x;
                        assert(idle@.take(k + 1)[n] == x);
                    }
                    if x == id {
                        assert(idle@.take(k + 1)[k as int] == x);
                    }
                }
            }
            if let Some(object) = self.input_objects.get(&id) {
                let object = object.clone();
                assert(object@ == start.input_objects[id]);
                self.write_object(object, WriteKind::Mutate);
            }
            assert(self@.written == before.written.insert(
                id,
                start.with_active_inputs().written[id],
            ));
            assert forall|x: ObjectID| #[trigger]
                self@.written.contains_key(x) <==> start.written.contains_key(x) || idle@.take(
                    k + 1,
                ).contains(x) by {
                assert(before.written.contains_key(x) <==> start.written.contains_key(x)
                    || idle@.take(k as int).contains(x));
            }
            k = k + 1;
        }
        assert(idle@.take(idle@.len() as int) =~= idle@);
        assert(self@ =~= start.with_active_inputs());
    }
}

impl<S: ObjectStore> TemporaryStore<S> {
    /// The storage rebate and the size of the object `id` before the transaction.
    fn get_input_storage_rebate_and_size(
        &self,
        id: &ObjectID,
        expected_version: SequenceNumber,
    ) -> (result: Result<(u64, usize), ExecutionError>)
        requires
            self.wf(),
            measurable(self.backing()),
        ensures
            result matches Ok(r) ==> self@.input_rebate_and_size(
                self.backing(),
                *id,
                expected_version,
            ) == Ok::<(u64, nat), ExecutionError>((r.0, r.1 as nat)),
            result matches Err(e) ==> self@.input_rebate_and_size(
                self.backing(),
                *id,
                expected_version,
            ) == Err::<(u64, nat), ExecutionError>(e),
    {
        if let Some(old_object) = self.input_objects.get(id) {
            assert(self@.input_objects.contains_key(*id));
            return Ok((old_object.storage_rebate, old_object.object_size_for_gas_metering()));
        }
        assert(!self@.input_objects.contains_key(*id));
        let looked_up = self.store.get_object(id);
        assert(found(looked_up) == self.backing().object_at(*id));
        match looked_up {
            Ok(Some(old_object)) => {
                if old_object.version().value != expected_version.value {
                    return Err(
                        ExecutionError::InvariantViolation(
                            InvariantViolation::UnexpectedOldVersion,
                        ),
                    );
                }
                Ok((old_object.storage_rebate, old_object.object_size_for_gas_metering()))
            },
            _ => Err(ExecutionError::InvariantViolation(InvariantViolation::OldObjectMissing)),
        }
    }

    /// Charges for the storage of everything that was written, the gas object and all inputs that
    /// may be changed among it, and counts the rebates of everything that was changed or deleted.
    /// Gives the bytes of what was written or deleted. Every written object gets the price of its
    /// storage as its storage rebate, but only once everything is charged for: where that fails, no
    /// storage rebate has changed.
    pub(crate) fn charge_gas_for_storage_changes(
        &mut self,
        gas_status: &mut SuiGasStatus,
        gas_object_id: Option<ObjectID>,
    ) -> (result: Result<u64, ExecutionError>)
        requires
            old(self).wf(),
            measurable(old(self).backing()),
            old(self)@.may_charge_storage(old(self).backing(), *old(gas_status), gas_object_id),
        ensures
            final(self).wf(),
            final(self).backing() == old(self).backing(),
            final(gas_status).wf(),
            final(self)@ == old(self)@.charge_storage(
                old(self).backing(),
                *old(gas_status),
                gas_object_id,
            ),
            ({
                let charge = old(self)@.prepared(gas_object_id).storage_charge(
                    old(self).backing(),
                    *old(gas_status),
                );
                &&& *final(gas_status) == charge.gas
                &&& charge.failed is None ==> result == Ok::<u64, ExecutionError>(
                    charge.bytes as u64,
                )
                &&& charge.failed is Some ==> result == Err::<u64, ExecutionError>(
                    charge.failed->0,
                )
            }),
    {
        self.enter_gas_object(gas_object_id);
        self.ensure_active_inputs_mutated();
        let ghost store = self.backing();
        let ghost s = self@;
        let ghost gas = *gas_status;
        let ghost rebates = s.written_rebate(store);
        let ghost sizes = s.written_bytes(store);
        let ids = keys_in_order(&self.written);
        let deleted_ids = keys_in_order(&self.deleted);
        assert(s.written.dom() =~= self.written@.dom());
        assert(ids@ == ascending(s.written.dom()));
        proof {
            lemma_sum_prefix(deleted_ids@, s.deleted_rebate(store), 0);
            lemma_sum_prefix(deleted_ids@, s.deleted_bytes(store), 0);
            lemma_sum_prefix(ids@, rebates, 0);
            lemma_sum_prefix(ids@, sizes, 0);
            assert(ids@.take(0) =~= Seq::<ObjectID>::empty());
            assert(ids@.take(ids@.len() as int) =~= ids@);
            assert(deleted_ids@.take(0) =~= Seq::<ObjectID>::empty());
            assert(deleted_ids@.take(deleted_ids@.len() as int) =~= deleted_ids@);
        }
        let mut total: usize = 0;
        let mut prices: Vec<u64> = Vec::new();
        let mut i: usize = 0;
        while i < ids.len()
            invariant
                i <= ids@.len(),
                self.wf(),
                self@ == s,
                self.backing() == store,
                store == old(self).backing(),
                s == old(self)@.prepared(gas_object_id),
                measurable(store),
                gas == *old(gas_status),
                gas.wf(),
                ids@ == ascending(s.written.dom()),
                deleted_ids@ == ascending(s.deleted.dom()),
                deleted_ids@.take(0) == Seq::<ObjectID>::empty(),
                forall|j: int| 0 <= j < ids@.len() ==> s.written.contains_key(#[trigger] ids@[j]),
                gas.counted_rebate() + sum_over(ids@, s.written_rebate(store)) <= u64::MAX,
                sum_over(ids@, s.written_bytes(store)) <= usize::MAX,
                s.charge_written(store, gas, ids@.take(i as int)) == (Charge {
                    gas: *gas_status,
                    bytes: total as nat,
                    failed: None,
                }),
                prices@.len() == i,
                forall|j: int|
                    0 <= j < i ==> #[trigger] prices@[j] == gas.price_of(
                        s.written[ids@[j]].0.size(),
                    ),
            decreases ids@.len() - i,
        {
            let id: ObjectID = ids[i];
            let ghost prefix = ids@.take(i as int);
            proof {
                assert(s.written.contains_key(ids@[i as int]));
                assert(ids@.take(i + 1).drop_last() =~= prefix);
                lemma_sum_prefix(ids@, s.written_rebate(store), i as int);
                lemma_sum_prefix(ids@, s.written_rebate(store), i + 1);
                lemma_sum_prefix(ids@, s.written_bytes(store), i + 1);
                lemma_charge_written(s, store, gas, prefix);
            }
            if let Some(entry) = self.written.get(&id) {
                let before: Result<(u64, usize), ExecutionError> = match entry.1 {
                    WriteKind::Create | WriteKind::Unwrap => Ok((0, 0)),
                    WriteKind::Mutate => self.get_input_storage_rebate_and_size(
                        &id,
                        entry.0.version(),
                    ),
                };
                let (old_rebate, old_size) = match before {
                    Ok(found) => found,
                    Err(error) => {
                        proof {
                            lemma_written_stops(s, store, gas, ids@, i + 1);
                            lemma_deleted_stops(
                                s,
                                store,
                                s.charge_written(store, gas, ids@),
                                deleted_ids@,
                                0,
                            );
                        }
                        return Err(error);
                    },
                };
                let new_size: usize = entry.0.object_size_for_gas_metering();
                match gas_status.charge_storage_mutation(new_size, old_rebate) {
                    Ok(price) => {
                        prices.push(price);
                    },
                    Err(error) => {
                        proof {
                            lemma_written_stops(s, store, gas, ids@, i + 1);
                            lemma_deleted_stops(
                                s,
                                store,
                                s.charge_written(store, gas, ids@),
                                deleted_ids@,
                                0,
                            );
                        }
                        return Err(error);
                    },
                }
                total = total + (old_size + new_size);
            }
            i = i + 1;
        }
        let ghost start = s.charge_written(store, gas, ids@);
        proof {
            lemma_charge_written(s, store, gas, ids@);
        }
        let mut k: usize = 0;
        while k < deleted_ids.len()
            invariant
                k <= deleted_ids@.len(),
                self.wf(),
                self@ == s,
                self.backing() == store,
                store == old(self).backing(),
                s == old(self)@.prepared(gas_object_id),
                measurable(store),
                gas == *old(gas_status),
                start == s.charge_written(store, gas, ascending(s.written.dom())),
                start.gas.wf(),
                start.failed is None,
                deleted_ids@ == ascending(s.deleted.dom()),
                forall|j: int|
                    0 <= j < deleted_ids@.len() ==> s.deleted.contains_key(
                        #[trigger] deleted_ids@[j],
                    ),
                start.gas.counted_rebate() + sum_over(deleted_ids@, s.deleted_rebate(store))
                    <= u64::MAX,
                start.bytes + sum_over(deleted_ids@, s.deleted_bytes(store)) <= usize::MAX,
                s.charge_deleted(store, start, deleted_ids@.take(k as int)) == (Charge {
                    gas: *gas_status,
                    bytes: total as nat,
                    failed: None,
                }),
            decreases deleted_ids@.len() - k,
        {
            let id: ObjectID = deleted_ids[k];
            let ghost prefix = deleted_ids@.take(k as int);
            proof {
                assert(s.deleted.contains_key(deleted_ids@[k as int]));
                assert(deleted_ids@.take(k + 1).drop_last() =~= prefix);
                lemma_sum_prefix(deleted_ids@, s.deleted_rebate(store), k as int);
                lemma_sum_prefix(deleted_ids@, s.deleted_rebate(store), k + 1);
                lemma_sum_prefix(deleted_ids@, s.deleted_bytes(store), k + 1);
                lemma_charge_deleted(s, store, start, prefix);
            }
            if let Some(entry) = self.deleted.get(&id) {
                match entry.1 {
                    DeleteKind::Wrap | DeleteKind::Normal => {
                        let (rebate, size) = match self.get_input_storage_rebate_and_size(
                            &id,
                            entry.0,
                        ) {
                            Ok(found) => found,
                            Err(error) => {
                                proof {
                                    lemma_deleted_stops(s, store, start, deleted_ids@, k + 1);
                                }
                                return Err(error);
                            },
                        };
                        match gas_status.charge_storage_mutation(0, rebate) {
                            Ok(_) => {},
                            Err(error) => {
                                proof {
                                    lemma_deleted_stops(s, store, start, deleted_ids@, k + 1);
                                }
                                return Err(error);
                            },
                        }
                        total = total + size;
                    },
                    DeleteKind::UnwrapThenDelete => {},
                }
            }
            k = k + 1;
        }
        self.set_storage_rebates(&ids, &prices, Ghost(gas));
        Ok(total as u64)
    }
}

impl<S> TemporaryStore<S> {
    /// Enters the gas object as written, if it was not yet.
    fn enter_gas_object(&mut self, gas_object_id: Option<ObjectID>)
        requires
            old(self).wf(),
            gas_object_id matches Some(id) ==> old(self)@.may_read(id) && old(self)@.read_object(
                id,
            ) is Some,
        ensures
            final(self).wf(),
            final(self).backing() == old(self).backing(),
            final(self)@ == old(self)@.with_gas_object(gas_object_id),
    {
        if let Some(id) = gas_object_id {
            if !self.written.contains_key(&id) {
                if let Some(gas_object) = self.read_object(&id) {
                    let gas_object = gas_object.clone();
                    self.written.insert(id, (gas_object, WriteKind::Mutate));
                }
                assert(self@ =~= old(self)@.with_gas_object(gas_object_id));
            }
        }
    }

    /// Makes `prices` the storage rebates of the written objects `ids`, and records the transaction
    /// as the one that last wrote those that can be changed.
    fn set_storage_rebates(
        &mut self,
        ids: &Vec<ObjectID>,
        prices: &Vec<u64>,
        Ghost(gas): Ghost<SuiGasStatus>,
    )
        requires
            old(self).wf(),
            is_ascending(ids@),
            ids@.to_set() == old(self)@.written.dom(),
            prices@.len() == ids@.len(),
            forall|j: int|
                0 <= j < ids@.len() ==> #[trigger] prices@[j] == gas.price_of(
                    old(self)@.written[ids@[j]].0.size(),
                ),
        ensures
            final(self).wf(),
            final(self).backing() == old(self).backing(),
            final(self)@ == old(self)@.repriced(gas),
    {
        let ghost s = self@;
        assert forall|id: ObjectID| #[trigger] s.written.contains_key(id) implies ids@.contains(
            id,
        ) by {
            assert(ids@.to_set().contains(id));
        }
        let mut i: usize = 0;
        while i < ids.len()
            invariant
                i <= ids@.len(),
                self.wf(),
                s == old(self)@,
                s.wf(),
                self.backing() == old(self).backing(),
                is_ascending(ids@),
                ids@.to_set() == s.written.dom(),
                prices@.len() == ids@.len(),
                forall|j: int|
                    0 <= j < ids@.len() ==> #[trigger] prices@[j] == gas.price_of(
                        s.written[ids@[j]].0.size(),
                    ),
                self@ == (StoreView { written: self@.written, ..s }),
                self@.written.dom() == s.written.dom(),
                forall|j: int|
                    0 <= j < i ==> self@.written[#[trigger] ids@[j]] == s.repriced_entry(
                        s.written[ids@[j]],
                        gas,
                    ),
                forall|j: int|
                    i <= j < ids@.len() ==> self@.written[#[trigger] ids@[j]]
                        == s.written[ids@[j]],
            decreases ids@.len() - i,
        {
            let id: ObjectID = ids[i];
            let ghost before = self@;
            proof {
                assert(ids@.to_set().contains(ids@[i as int]));
                assert(s.written.contains_key(id));
                assert(before.written.contains_key(id));
                assert(before.written[ids@[i as int]] == s.written[id]);
                assert(prices@[i as int] == gas.price_of(s.written[id].0.size()));
            }
            if let Some((object, kind)) = self.written.remove(&id) {
                let mut object = object;
                let ghost unpriced = object@;
                assert(unpriced == s.written[id].0);
                object.storage_rebate = prices[i];
                assert(object@.size() == unpriced.size());
                assert(self@.written =~= before.written.remove(id));
                if object.is_immutable() {
                    self.written.insert(id, (object, kind));
                } else {
                    self.write_object(object, kind);
                }
                assert(self@.written =~= before.written.insert(
                    id,
                    s.repriced_entry(s.written[id], gas),
                ));
            }
            assert(self@.written.dom() =~= before.written.dom());
            assert forall|j: int| 0 <= j < ids@.len() && j != i implies self@.written[
                #[trigger] ids@[j]] == before.written[ids@[j]] by {
                if j < i {
                    assert(crate::order::id_before(ids@[j], ids@[i as int]));
                } else {
                    assert(crate::order::id_before(ids@[i as int], ids@[j]));
                }
            }
            i = i + 1;
        }
        assert forall|id: ObjectID| #[trigger] s.written.contains_key(id) implies self@.written[id]
            == s.repriced(gas).written[id] by {
            let j = choose|j: int| 0 <= j < ids@.len() && ids@[j] == id;
            assert(self@.written[ids@[j]] == s.repriced_entry(s.written[ids@[j]], gas));
        }
        assert(self@ =~= s.repriced(gas));
    }
}

} // verus!

pub mod basic_laws;
pub mod charge;
pub mod charge_laws;
pub mod commit;
pub mod commit_laws;
pub mod conservation;
pub mod conserve;
pub mod count_laws;
pub mod gas_laws;
pub mod laws;
pub mod lookup_laws;
pub mod model;
pub mod ownership;
pub mod ownership_laws;
pub mod resolve;
pub mod settle;
pub mod settle_laws;
pub mod smash;

use crate::base_types::{
    ObjectID, ObjectRef, SequenceNumber, TransactionDigest, MAX_VERSION,
    SUI_SYSTEM_STATE_OBJECT_ID,
};
use crate::event::Event;
use crate::gas::GasCostSummary;
use crate::input_objects::{highest_version, mutable_refs, object_map, InputObjects};
use crate::object::{Object, ObjectView};
use crate::order::{ascending, keys_in_order};
use crate::protocol_config::ProtocolConfig;
use crate::storage::{DeleteKind, ObjectChange, ObjectChangeView, WriteKind};
use crate::temporary_store::model::{object_views, stamped, written_views, StoreView};
use std::collections::BTreeMap;
use vstd::prelude::*;

verus! {

broadcast use vstd::laws_cmp::group_laws_cmp;

/// What a transaction has read and written so far, on top of a backing store.
pub struct TemporaryStore<S> {
    /// The store that the inputs came from. Packages and dynamic fields are not among the inputs,
    /// and are looked up here.
    store: S,
    tx_digest: TransactionDigest,
    input_objects: BTreeMap<ObjectID, Object>,
    /// The version of everything that the transaction writes.
    lamport_timestamp: SequenceNumber,
    /// The inputs that the transaction may change.
    mutable_input_refs: Vec<ObjectRef>,
    /// What was written. Entries come in through `write_object`, which keeps them in order.
    written: BTreeMap<ObjectID, (Object, WriteKind)>,
    /// What was deleted.
    deleted: BTreeMap<ObjectID, (SequenceNumber, DeleteKind)>,
    /// The events, in the order in which they were emitted.
    events: Vec<Event>,
    gas_charged: Option<(ObjectID, GasCostSummary)>,
    storage_rebate_rate: u64,
    protocol_config: ProtocolConfig,
}

impl<S> View for TemporaryStore<S> {
    type V = StoreView;

    closed spec fn view(&self) -> StoreView {
        StoreView {
            tx_digest: self.tx_digest,
            input_objects: object_views(self.input_objects@),
            lamport_timestamp: self.lamport_timestamp,
            mutable_inputs: self.mutable_input_refs@,
            written: written_views(self.written@),
            deleted: self.deleted@,
            events: self.events@,
            gas_charged: self.gas_charged,
            storage_rebate_rate: self.storage_rebate_rate,
            protocol_config: self.protocol_config,
        }
    }
}

/// A store with nothing written yet.
pub open spec fn fresh(
    inputs: InputObjects,
    lamport_timestamp: SequenceNumber,
    tx_digest: TransactionDigest,
    protocol_config: ProtocolConfig,
) -> StoreView {
    StoreView {
        tx_digest,
        input_objects: object_map(inputs.objects@),
        lamport_timestamp,
        mutable_inputs: mutable_refs(inputs.objects@),
        written: Map::empty(),
        deleted: Map::empty(),
        events: Seq::empty(),
        gas_charged: None,
        storage_rebate_rate: protocol_config.storage_rebate_rate,
        protocol_config,
    }
}

impl<S> TemporaryStore<S> {
    /// The backing store.
    pub closed spec fn backing(&self) -> S {
        self.store
    }

    /// Whether the store is in order.
    pub open spec fn wf(&self) -> bool {
        self@.wf()
    }

    /// A store for a transaction with these inputs, with nothing written yet.
    pub fn new(
        store: S,
        input_objects: InputObjects,
        tx_digest: TransactionDigest,
        protocol_config: &ProtocolConfig,
    ) -> (temporary: Self)
        requires
            input_objects.wf(),
            highest_version(input_objects.objects@) < u64::MAX,
        ensures
            temporary.wf(),
            temporary.backing() == store,
            temporary@ == fresh(
                input_objects,
                SequenceNumber {
                    value: (highest_version(input_objects.objects@) + 1) as u64,
                },
                tx_digest,
                *protocol_config,
            ),
    {
        let lamport_timestamp = input_objects.lamport_timestamp();
        TemporaryStore::with_lamport_timestamp(
            store,
            input_objects,
            lamport_timestamp,
            tx_digest,
            protocol_config,
        )
    }

    /// A store for a transaction that is only tried out. The version of everything that it writes
    /// is the highest one, so that objects of any version can be loaded.
    pub fn new_for_mock_transaction(
        store: S,
        input_objects: InputObjects,
        tx_digest: TransactionDigest,
        protocol_config: &ProtocolConfig,
    ) -> (temporary: Self)
        requires
            input_objects.wf(),
        ensures
            temporary.wf(),
            temporary.backing() == store,
            temporary@ == fresh(
                input_objects,
                SequenceNumber { value: MAX_VERSION },
                tx_digest,
                *protocol_config,
            ),
    {
        TemporaryStore::with_lamport_timestamp(
            store,
            input_objects,
            SequenceNumber { value: MAX_VERSION },
            tx_digest,
            protocol_config,
        )
    }

    fn with_lamport_timestamp(
        store: S,
        input_objects: InputObjects,
        lamport_timestamp: SequenceNumber,
        tx_digest: TransactionDigest,
        protocol_config: &ProtocolConfig,
    ) -> (temporary: Self)
        requires
            input_objects.wf(),
        ensures
            temporary.wf(),
            temporary.backing() == store,
            temporary@ == fresh(input_objects, lamport_timestamp, tx_digest, *protocol_config),
    {
        let ghost inputs = input_objects.objects@;
        let mutable_inputs = input_objects.mutable_inputs();
        let objects = input_objects.into_object_map();
        let temporary = TemporaryStore {
            store,
            tx_digest,
            input_objects: objects,
            lamport_timestamp,
            mutable_input_refs: mutable_inputs,
            written: BTreeMap::new(),
            deleted: BTreeMap::new(),
            events: Vec::new(),
            gas_charged: None,
            storage_rebate_rate: protocol_config.storage_rebate_rate(),
            protocol_config: *protocol_config,
        };
        proof {
            assert(temporary@ =~= fresh(
                InputObjects { objects: input_objects.objects },
                lamport_timestamp,
                tx_digest,
                *protocol_config,
            ));
            lemma_object_map(inputs);
            lemma_mutable_refs(inputs);
        }
        temporary
    }

    /// The inputs of the transaction, by their ids.
    pub fn objects(&self) -> (objects: &BTreeMap<ObjectID, Object>)
        ensures
            object_views(objects@) == self@.input_objects,
    {
        &self.input_objects
    }

    /// Writes an object, and records the transaction as the one that last wrote it.
    pub fn write_object(&mut self, mut object: Object, kind: WriteKind)
        requires
            old(self).wf(),
            old(self)@.may_write(object@, kind),
        ensures
            final(self).wf(),
            final(self).backing() == old(self).backing(),
            final(self)@ == old(self)@.write_object(object@, kind),
    {
        let id: ObjectID = object.id();
        let ghost given = object@;
        object.previous_transaction = self.tx_digest;
        assert(object@ == stamped(given, self.tx_digest));
        assert(object@.size() == given.size());
        self.written.insert(id, (object, kind));
        assert(self@ =~= old(self)@.write_object(given, kind));
    }

    /// Records that an object was deleted at `version`.
    pub fn delete_object(&mut self, id: &ObjectID, version: SequenceNumber, kind: DeleteKind)
        requires
            old(self).wf(),
            old(self)@.may_delete(*id),
        ensures
            final(self).wf(),
            final(self).backing() == old(self).backing(),
            final(self)@ == old(self)@.delete_object(*id, version, kind),
    {
        self.deleted.insert(*id, (version, kind));
        assert(self@ =~= old(self)@.delete_object(*id, version, kind));
    }

    /// Forgets everything that was written, deleted or emitted.
    pub fn drop_writes(&mut self)
        requires
            old(self).wf(),
        ensures
            final(self).wf(),
            final(self).backing() == old(self).backing(),
            final(self)@ == old(self)@.drop_writes(),
    {
        self.written.clear();
        self.deleted.clear();
        self.events.clear();
        assert(self@ =~= old(self)@.drop_writes());
    }

    /// Records an event.
    pub fn log_event(&mut self, event: Event)
        requires
            old(self).wf(),
        ensures
            final(self).wf(),
            final(self).backing() == old(self).backing(),
            final(self)@ == (StoreView { events: old(self)@.events.push(event), ..old(self)@ }),
    {
        self.events.push(event);
    }

    /// The object `id` as the transaction sees it: as it was written, or else as it was an input.
    pub fn read_object(&self, id: &ObjectID) -> (object: Option<&Object>)
        requires
            self@.may_read(*id),
        ensures
            object is Some <==> self@.read_object(*id) is Some,
            object matches Some(o) ==> self@.read_object(*id) == Some(o@),
    {
        match self.written.get(id) {
            Some(entry) => Some(&entry.0),
            None => self.input_objects.get(id),
        }
    }

    /// Applies the changes that execution made, in the order of their ids.
    pub fn apply_object_changes(&mut self, changes: BTreeMap<ObjectID, ObjectChange>)
        requires
            old(self).wf(),
            old(self)@.may_apply_changes(
                change_views(changes@),
                ascending(changes@.dom()),
            ),
        ensures
            final(self).wf(),
            final(self).backing() == old(self).backing(),
            final(self)@ == old(self)@.apply_changes(
                change_views(changes@),
                ascending(changes@.dom()),
            ),
    {
        let ghost all = change_views(changes@);
        let ids = keys_in_order(&changes);
        let mut rest = changes;
        let mut i: usize = 0;
        assert(ids@.take(0) =~= Seq::<ObjectID>::empty());
        assert(ids@.take(ids@.len() as int) =~= ids@);
        while i < ids.len()
            invariant
                i <= ids@.len(),
                self.wf(),
                self.backing() == old(self).backing(),
                crate::order::is_ascending(ids@),
                ids@.take(ids@.len() as int) == ids@,
                old(self)@.may_apply_changes(all, ids@),
                self@ == old(self)@.apply_changes(all, ids@.take(i as int)),
                forall|j: int|
                    i <= j < ids@.len() ==> rest@.contains_key(#[trigger] ids@[j])
                        && all[ids@[j]] == rest@[ids@[j]]@,
            decreases ids@.len() - i,
        {
            let id: ObjectID = ids[i];
            let ghost before = rest@;
            proof {
                assert(ids@.take(i + 1).drop_last() =~= ids@.take(i as int));
                lemma_may_apply_prefix(old(self)@, all, ids@, i + 1);
            }
            if let Some(change) = rest.remove(&id) {
                match change {
                    ObjectChange::Write(new_value, kind) => self.write_object(new_value, kind),
                    ObjectChange::Delete(version, kind) => self.delete_object(&id, version, kind),
                }
            }
            assert forall|j: int| i + 1 <= j < ids@.len() implies rest@.contains_key(
                #[trigger] ids@[j],
            ) && all[ids@[j]] == rest@[ids@[j]]@ by {
                assert(crate::order::id_before(ids@[i as int], ids@[j]));
                assert(before.contains_key(ids@[j]));
            }
            i = i + 1;
        }
    }

    /// If there is a storage rebate that no one was paid, puts it into the storage rebate of the
    /// system state object. There is none when the genesis transaction runs, and the first gas
    /// model leaves it alone.
    pub fn conserve_unmetered_storage_rebate(&mut self, unmetered_storage_rebate: u64)
        requires
            old(self).wf(),
            old(self)@.conserves_rebate(unmetered_storage_rebate) ==> {
                &&& old(self)@.may_read(SUI_SYSTEM_STATE_OBJECT_ID)
                &&& old(self)@.read_object(SUI_SYSTEM_STATE_OBJECT_ID) is Some
                &&& old(self)@.read_object(SUI_SYSTEM_STATE_OBJECT_ID)->0.storage_rebate == 0
            },
        ensures
            final(self).wf(),
            final(self).backing() == old(self).backing(),
            final(self)@ == old(self)@.conserve_rebate(unmetered_storage_rebate),
    {
        if unmetered_storage_rebate == 0 {
            return;
        }
        if !self.protocol_config.gas_model_v2() {
            return;
        }
        let id: ObjectID = SUI_SYSTEM_STATE_OBJECT_ID;
        if let Some(system_state) = self.read_object(&id) {
            let mut system_state_wrapper = system_state.clone();
            let ghost before = system_state_wrapper@;
            system_state_wrapper.storage_rebate = unmetered_storage_rebate;
            assert(system_state_wrapper@.size() == before.size());
            self.write_object(system_state_wrapper, WriteKind::Mutate);
        }
    }
}

impl StoreView {
    /// Whether an unpaid storage rebate is put into the system state object.
    pub open spec fn conserves_rebate(self, unmetered_storage_rebate: u64) -> bool {
        unmetered_storage_rebate != 0 && self.protocol_config.spec_gas_model_v2()
    }

    /// The store after an unpaid storage rebate was put into the system state object.
    pub open spec fn conserve_rebate(self, unmetered_storage_rebate: u64) -> StoreView {
        if self.conserves_rebate(unmetered_storage_rebate) {
            self.write_object(
                ObjectView {
                    storage_rebate: unmetered_storage_rebate,
                    ..self.read_object(SUI_SYSTEM_STATE_OBJECT_ID)->0
                },
                WriteKind::Mutate,
            )
        } else {
            self
        }
    }
}

/// A store without inputs or a backing store, to test with.
pub fn empty_for_testing() -> (temporary: TemporaryStore<()>)
    ensures
        temporary.wf(),
        temporary@ == (StoreView {
            tx_digest: TransactionDigest { high: 0, low: 0 },
            input_objects: Map::empty(),
            lamport_timestamp: SequenceNumber { value: 1 },
            mutable_inputs: Seq::empty(),
            written: Map::empty(),
            deleted: Map::empty(),
            events: Seq::empty(),
            gas_charged: None,
            storage_rebate_rate: 9900,
            protocol_config: ProtocolConfig::min_version(),
        }),
{
    let inputs = InputObjects::new(Vec::new());
    let temporary = TemporaryStore::new(
        (),
        inputs,
        TransactionDigest::genesis(),
        &ProtocolConfig::get_for_min_version(),
    );
    proof {
        reveal(Seq::filter_map);
        assert(temporary@.mutable_inputs =~= Seq::<ObjectRef>::empty());
    }
    temporary
}

/// A store with these inputs and without a backing store, to test with.
pub fn with_input_objects_for_testing(input_objects: InputObjects) -> (temporary: TemporaryStore<
    (),
>)
    requires
        input_objects.wf(),
        highest_version(input_objects.objects@) < u64::MAX,
    ensures
        temporary.wf(),
        temporary@ == fresh(
            input_objects,
            SequenceNumber { value: (highest_version(input_objects.objects@) + 1) as u64 },
            (TransactionDigest { high: 0, low: 0 }),
            ProtocolConfig::min_version(),
        ),
{
    TemporaryStore::new(
        (),
        input_objects,
        TransactionDigest::genesis(),
        &ProtocolConfig::get_for_min_version(),
    )
}

/// What the changes of a map are.
pub open spec fn change_views(m: Map<ObjectID, ObjectChange>) -> Map<ObjectID, ObjectChangeView> {
    m.map_values(|c: ObjectChange| c@)
}

proof fn lemma_may_apply_prefix(
    s: StoreView,
    changes: Map<ObjectID, ObjectChangeView>,
    ids: Seq<ObjectID>,
    n: int,
)
    requires
        0 <= n <= ids.len(),
        s.may_apply_changes(changes, ids),
    ensures
        s.may_apply_changes(changes, ids.take(n)),
    decreases ids.len(),
{
    if n == ids.len() {
        assert(ids.take(n) =~= ids);
    } else {
        lemma_may_apply_prefix(s, changes, ids.drop_last(), n);
        assert(ids.drop_last().take(n) =~= ids.take(n));
    }
}

proof fn lemma_object_map(inputs: Seq<crate::input_objects::InputObject>)
    requires
        forall|i: int| 0 <= i < inputs.len() ==> (#[trigger] inputs[i]).wf(),
    ensures
        object_map(inputs).dom().finite(),
        forall|id: ObjectID| #[trigger]
            object_map(inputs).contains_key(id) ==> object_map(inputs)[id].wf()
                && object_map(inputs)[id].id() == id,
        forall|i: int|
            0 <= i < inputs.len() ==> object_map(inputs).contains_key(
                (#[trigger] inputs[i]).object@.id(),
            ),
    decreases inputs.len(),
{
    if inputs.len() > 0 {
        let rest = inputs.drop_last();
        assert forall|i: int| 0 <= i < rest.len() implies (#[trigger] rest[i]).wf() by {
            assert(rest[i] == inputs[i]);
        }
        lemma_object_map(rest);
        assert(inputs[inputs.len() - 1].wf());
        assert forall|i: int| 0 <= i < inputs.len() implies object_map(inputs).contains_key(
            (#[trigger] inputs[i]).object@.id(),
        ) by {
            if i < rest.len() {
                assert(rest[i] == inputs[i]);
            }
        }
    }
}

proof fn lemma_mutable_refs(inputs: Seq<crate::input_objects::InputObject>)
    requires
        forall|i: int| 0 <= i < inputs.len() ==> (#[trigger] inputs[i]).wf(),
    ensures
        forall|i: int|
            0 <= i < mutable_refs(inputs).len() ==> object_map(inputs).contains_key(
                (#[trigger] mutable_refs(inputs)[i]).0,
            ),
{
    lemma_object_map(inputs);
    let pick = |input: crate::input_objects::InputObject| input.mutable_ref();
    assert forall|i: int| 0 <= i < mutable_refs(inputs).len() implies object_map(
        inputs,
    ).contains_key((#[trigger] mutable_refs(inputs)[i]).0) by {
        let r = mutable_refs(inputs)[i];
        assert(mutable_refs(inputs).contains(r));
        inputs.lemma_filter_map_contains(pick, r);
        let input = choose|input: crate::input_objects::InputObject| #[trigger]
            inputs.contains(input) && pick(input) == Some(r);
        let j = choose|j: int| 0 <= j < inputs.len() && inputs[j] == input;
        assert(inputs[j].wf());
    }
}

} // verus!

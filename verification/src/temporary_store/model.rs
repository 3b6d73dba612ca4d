use crate::base_types::{ObjectID, ObjectRef, SequenceNumber, TransactionDigest, MIN_VERSION};
use crate::event::Event;
use crate::gas::GasCostSummary;
use crate::object::{Object, ObjectView};
use crate::protocol_config::ProtocolConfig;
use crate::storage::{DeleteKind, ObjectChangeView, WriteKind};
use vstd::prelude::*;

verus! {

/// What a temporary store holds, apart from its backing store.
#[verifier::ext_equal]
pub struct StoreView {
    pub tx_digest: TransactionDigest,
    pub input_objects: Map<ObjectID, ObjectView>,
    pub lamport_timestamp: SequenceNumber,
    pub mutable_inputs: Seq<ObjectRef>,
    pub written: Map<ObjectID, (ObjectView, WriteKind)>,
    pub deleted: Map<ObjectID, (SequenceNumber, DeleteKind)>,
    pub events: Seq<Event>,
    pub gas_charged: Option<(ObjectID, GasCostSummary)>,
    pub storage_rebate_rate: u64,
    pub protocol_config: ProtocolConfig,
}

/// What the objects of a map are.
pub open spec fn object_views(m: Map<ObjectID, Object>) -> Map<ObjectID, ObjectView> {
    m.map_values(|o: Object| o@)
}

/// What the written objects of a map are.
pub open spec fn written_views(m: Map<ObjectID, (Object, WriteKind)>) -> Map<
    ObjectID,
    (ObjectView, WriteKind),
> {
    m.map_values(|e: (Object, WriteKind)| (e.0@, e.1))
}

/// An object as it stands after a transaction wrote it: the transaction is on record as the one
/// that last wrote it.
pub open spec fn stamped(object: ObjectView, tx_digest: TransactionDigest) -> ObjectView {
    ObjectView { previous_transaction: tx_digest, ..object }
}

/// Whether an object that was created and can be changed later has the lowest version. Its version
/// is set when the transaction is committed; a higher one could reach past that.
pub open spec fn created_properly(object: ObjectView, kind: WriteKind) -> bool {
    kind != WriteKind::Create || object.is_immutable() || object.version().value == MIN_VERSION
}

impl StoreView {
    /// Whether the store is in order: every object is complete and stands under its own id, what
    /// was created and can be changed later still has the lowest version, no object is both written
    /// and deleted, and every input that may be changed is at hand.
    pub open spec fn wf(self) -> bool {
        &&& self.input_objects.dom().finite()
        &&& self.written.dom().finite()
        &&& self.deleted.dom().finite()
        &&& forall|id: ObjectID| #[trigger]
            self.input_objects.contains_key(id) ==> self.input_objects[id].wf()
                && self.input_objects[id].id() == id
        &&& forall|id: ObjectID| #[trigger]
            self.written.contains_key(id) ==> self.written[id].0.wf() && self.written[id].0.id()
                == id && created_properly(self.written[id].0, self.written[id].1)
        &&& forall|id: ObjectID|
            !(#[trigger] self.written.contains_key(id) && self.deleted.contains_key(id))
        &&& forall|i: int|
            0 <= i < self.mutable_inputs.len() ==> self.input_objects.contains_key(
                (#[trigger] self.mutable_inputs[i]).0,
            )
    }

    /// Whether everything that was written carries the digest of the transaction.
    pub open spec fn is_stamped(self) -> bool {
        forall|id: ObjectID| #[trigger]
            self.written.contains_key(id) ==> self.written[id].0.previous_transaction
                == self.tx_digest
    }

    /// Whether `object` may be written: it was not deleted, and where it is created and can be
    /// changed later, its version is still the lowest.
    pub open spec fn may_write(self, object: ObjectView, kind: WriteKind) -> bool {
        &&& object.wf()
        &&& !self.deleted.contains_key(object.id())
        &&& created_properly(object, kind)
    }

    /// Whether the object `id` may be deleted: it was not written.
    pub open spec fn may_delete(self, id: ObjectID) -> bool {
        !self.written.contains_key(id)
    }

    /// Whether the object `id` may be read: it was not deleted.
    pub open spec fn may_read(self, id: ObjectID) -> bool {
        !self.deleted.contains_key(id)
    }

    pub open spec fn write_object(self, object: ObjectView, kind: WriteKind) -> StoreView {
        StoreView {
            written: self.written.insert(object.id(), (stamped(object, self.tx_digest), kind)),
            ..self
        }
    }

    pub open spec fn delete_object(
        self,
        id: ObjectID,
        version: SequenceNumber,
        kind: DeleteKind,
    ) -> StoreView {
        StoreView { deleted: self.deleted.insert(id, (version, kind)), ..self }
    }

    /// The object `id` as the transaction sees it: as it was written, or else as it was an input.
    pub open spec fn read_object(self, id: ObjectID) -> Option<ObjectView> {
        if self.written.contains_key(id) {
            Some(self.written[id].0)
        } else if self.input_objects.contains_key(id) {
            Some(self.input_objects[id])
        } else {
            None
        }
    }

    pub open spec fn drop_writes(self) -> StoreView {
        StoreView {
            written: Map::empty(),
            deleted: Map::empty(),
            events: Seq::empty(),
            ..self
        }
    }

    /// Whether one change may be applied.
    pub open spec fn may_change(self, id: ObjectID, change: ObjectChangeView) -> bool {
        match change {
            ObjectChangeView::Write(object, kind) => self.may_write(object, kind),
            ObjectChangeView::Delete(_, _) => self.may_delete(id),
        }
    }

    pub open spec fn change(self, id: ObjectID, change: ObjectChangeView) -> StoreView {
        match change {
            ObjectChangeView::Write(object, kind) => self.write_object(object, kind),
            ObjectChangeView::Delete(version, kind) => self.delete_object(id, version, kind),
        }
    }

    /// The store after the changes to `ids`, one after the other.
    pub open spec fn apply_changes(
        self,
        changes: Map<ObjectID, ObjectChangeView>,
        ids: Seq<ObjectID>,
    ) -> StoreView
        decreases ids.len(),
    {
        if ids.len() == 0 {
            self
        } else {
            self.apply_changes(changes, ids.drop_last()).change(ids.last(), changes[ids.last()])
        }
    }

    /// Whether the changes to `ids` may be applied, one after the other.
    pub open spec fn may_apply_changes(
        self,
        changes: Map<ObjectID, ObjectChangeView>,
        ids: Seq<ObjectID>,
    ) -> bool
        decreases ids.len(),
    {
        ids.len() > 0 ==> {
            &&& self.may_apply_changes(changes, ids.drop_last())
            &&& self.apply_changes(changes, ids.drop_last()).may_change(
                ids.last(),
                changes[ids.last()],
            )
        }
    }
}

} // verus!

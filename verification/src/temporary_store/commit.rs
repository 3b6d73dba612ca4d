use crate::base_types::{
    EpochId, ObjectDigest, ObjectID, ObjectRef, SequenceNumber, SuiAddress, TransactionDigest,
    TransactionEventsDigest, MIN_VERSION, NO_OBJECT,
};
use crate::effects::{effects_size, ExecutionStatus, TransactionEffects};
use crate::event::TransactionEvents;
use crate::gas::GasCostSummary;
use crate::inner::InnerTemporaryStore;
use crate::object::{Data, DataView, MoveObjectView, MovePackage, Object, ObjectView, Owner};
use crate::order::{ascending, is_ascending, keys_in_order};
use crate::storage::{DeleteKind, WriteKind};
use crate::temporary_store::model::{object_views, StoreView};
use crate::temporary_store::TemporaryStore;
use std::collections::BTreeMap;
use vstd::prelude::*;

verus! {

broadcast use vstd::laws_cmp::group_laws_cmp;

/// What is wrong with a store that should be ready to be committed.
#[derive(Clone, Copy, Debug, PartialEq, Eq, Structural)]
pub enum StoreFault {
    /// An object was both written and deleted.
    WrittenAndDeleted,
    /// An input that may be changed was neither written nor deleted.
    MutableInputUntouched,
    /// A written object does not name the transaction as the one that last wrote it.
    PreviousTransactionNotSet,
}

/// A written object as it is committed. A Move object gets the version of the transaction. A package
/// that was changed gets its next version, and one that was not stays as it is. An object that was
/// created as shared records the version at which that happened.
pub open spec fn committed(
    object: ObjectView,
    kind: WriteKind,
    lamport_timestamp: SequenceNumber,
) -> ObjectView {
    ObjectView {
        data: match object.data {
            DataView::Move(m) => DataView::Move(
                MoveObjectView { version: lamport_timestamp, ..m },
            ),
            DataView::Package(p) => DataView::Package(
                if kind is Mutate {
                    MovePackage {
                        version: SequenceNumber { value: (p.version.value + 1) as u64 },
                        ..p
                    }
                } else {
                    p
                },
            ),
        },
        owner: if object.owner is Shared && kind is Create {
            Owner::Shared { initial_shared_version: lamport_timestamp }
        } else {
            object.owner
        },
        ..object
    }
}

/// Whether a written object can be committed: its version goes up, and an object that was created
/// as shared has not recorded when that happened.
pub open spec fn may_commit_object(
    object: ObjectView,
    kind: WriteKind,
    lamport_timestamp: SequenceNumber,
) -> bool {
    &&& match object.data {
        DataView::Move(m) => m.version.value < lamport_timestamp.value,
        DataView::Package(p) => kind is Mutate ==> p.version.value < u64::MAX,
    }
    &&& kind is Create ==> match object.owner {
        Owner::Shared { initial_shared_version } => initial_shared_version.value == MIN_VERSION,
        _ => true,
    }
}

impl StoreView {
    /// Whether some object was both written and deleted.
    pub open spec fn has_overlap(self) -> bool {
        exists|id: ObjectID| #[trigger] self.written.contains_key(id) && self.deleted.contains_key(id)
    }

    /// Whether some input that may be changed was neither written nor deleted.
    pub open spec fn has_untouched_input(self) -> bool {
        exists|i: int|
            0 <= i < self.mutable_inputs.len() && !self.written.contains_key(
                (#[trigger] self.mutable_inputs[i]).0,
            ) && !self.deleted.contains_key(self.mutable_inputs[i].0)
    }

    /// What is wrong with a store that should be ready to be committed.
    pub open spec fn fault(self) -> Option<StoreFault> {
        if self.has_overlap() {
            Some(StoreFault::WrittenAndDeleted)
        } else if self.has_untouched_input() {
            Some(StoreFault::MutableInputUntouched)
        } else if !self.is_stamped() {
            Some(StoreFault::PreviousTransactionNotSet)
        } else {
            None
        }
    }

    /// Whether the store is ready to be committed.
    pub open spec fn may_commit(self) -> bool {
        &&& self.fault() is None
        &&& forall|id: ObjectID| #[trigger]
            self.written.contains_key(id) ==> may_commit_object(
                self.written[id].0,
                self.written[id].1,
                self.lamport_timestamp,
            )
        &&& forall|id: ObjectID| #[trigger]
            self.deleted.contains_key(id) ==> self.deleted[id].0.value
                < self.lamport_timestamp.value
    }
}

/// Whether `inner` is what committing the store `s` gives. The digests of the written objects are
/// those that `digest` computes.
pub open spec fn is_commit_of<F: Fn(&Object) -> ObjectDigest>(
    inner: InnerTemporaryStore,
    s: StoreView,
    digest: F,
) -> bool {
    &&& object_views(inner.objects@) == s.input_objects
    &&& inner.mutable_inputs@ == s.mutable_inputs
    &&& inner.written@.dom() == s.written.dom()
    &&& forall|id: ObjectID| #[trigger]
        inner.written@.contains_key(id) ==> {
            let (object_ref, object, kind) = inner.written@[id];
            &&& object@ == committed(s.written[id].0, s.written[id].1, s.lamport_timestamp)
            &&& kind == s.written[id].1
            &&& object_ref.0 == id
            &&& object_ref.1 == object@.version()
            &&& call_ensures(digest, (&object,), object_ref.2)
        }
    &&& inner.deleted@ == s.deleted.map_values(
        |e: (SequenceNumber, DeleteKind)| (s.lamport_timestamp, e.1),
    )
    &&& inner.events.data@ == s.events
    &&& inner.max_binary_format_version == s.protocol_config.move_binary_format_version
}

impl<S> TemporaryStore<S> {
    /// Checks that the store is ready to be committed: no object was both written and deleted, every
    /// input that may be changed was written or deleted, and every written object names the
    /// transaction as the one that last wrote it.
    pub fn check_invariants(&self) -> (result: Result<(), StoreFault>)
        ensures
            result is Ok <==> self@.fault() is None,
            result matches Err(fault) ==> self@.fault() == Some(fault),
    {
        let ghost s = self@;
        let ids = keys_in_order(&self.written);
        let mut i: usize = 0;
        while i < ids.len()
            invariant
                i <= ids@.len(),
                s == self@,
                ids@.to_set() == s.written.dom(),
                forall|j: int| 0 <= j < ids@.len() ==> s.written.contains_key(#[trigger] ids@[j]),
                forall|j: int| 0 <= j < i ==> !s.deleted.contains_key(#[trigger] ids@[j]),
            decreases ids@.len() - i,
        {
            let id: ObjectID = ids[i];
            if self.deleted.contains_key(&id) {
                assert(s.written.contains_key(ids@[i as int]));
                return Err(StoreFault::WrittenAndDeleted);
            }
            i = i + 1;
        }
        assert(!s.has_overlap()) by {
            assert forall|id: ObjectID| #[trigger] s.written.contains_key(id) implies !s.deleted
                .contains_key(id) by {
                assert(ids@.to_set().contains(id));
                let j = choose|j: int| 0 <= j < ids@.len() && ids@[j] == id;
                assert(!s.deleted.contains_key(ids@[j]));
            }
        }
        let mut k: usize = 0;
        while k < self.mutable_input_refs.len()
            invariant
                k <= self.mutable_input_refs@.len(),
                s == self@,
                !s.has_overlap(),
                forall|j: int|
                    0 <= j < k ==> s.written.contains_key((#[trigger] s.mutable_inputs[j]).0)
                        || s.deleted.contains_key(s.mutable_inputs[j].0),
            decreases self.mutable_input_refs@.len() - k,
        {
            let id: ObjectID = self.mutable_input_refs[k].0;
            assert(s.mutable_inputs[k as int].0 == id);
            if !self.written.contains_key(&id) && !self.deleted.contains_key(&id) {
                return Err(StoreFault::MutableInputUntouched);
            }
            k = k + 1;
        }
        let mut n: usize = 0;
        while n < ids.len()
            invariant
                n <= ids@.len(),
                s == self@,
                !s.has_overlap(),
                !s.has_untouched_input(),
                ids@.to_set() == s.written.dom(),
                forall|j: int| 0 <= j < ids@.len() ==> s.written.contains_key(#[trigger] ids@[j]),
                forall|j: int|
                    0 <= j < n ==> s.written[#[trigger] ids@[j]].0.previous_transaction
                        == s.tx_digest,
            decreases ids@.len() - n,
        {
            let id: ObjectID = ids[n];
            assert(s.written.contains_key(ids@[n as int]));
            if let Some(entry) = self.written.get(&id) {
                if entry.0.previous_transaction != self.tx_digest {
                    return Err(StoreFault::PreviousTransactionNotSet);
                }
            }
            n = n + 1;
        }
        assert(s.is_stamped()) by {
            assert forall|id: ObjectID| #[trigger] s.written.contains_key(id) implies s.written[id]
                .0.previous_transaction == s.tx_digest by {
                assert(ids@.to_set().contains(id));
                let j = choose|j: int| 0 <= j < ids@.len() && ids@[j] == id;
                assert(s.written[ids@[j]].0.previous_transaction == s.tx_digest);
            }
        }
        Ok(())
    }

    /// Commits the store: sets the versions of what was written and deleted, and gives everything
    /// that the store held. `digest` computes the digest of an object.
    pub fn into_inner<F: Fn(&Object) -> ObjectDigest>(self, digest: &F) -> (inner:
        InnerTemporaryStore)
        requires
            self.wf(),
            self@.may_commit(),
            forall|object: Object| call_requires(*digest, (&object,)),
        ensures
            is_commit_of(inner, self@, *digest),
    {
        let ghost s = self@;
        let lamport_timestamp = self.lamport_timestamp;
        let max_binary_format_version = self.protocol_config.move_binary_format_version();
        let ids = keys_in_order(&self.written);
        let deleted_ids = keys_in_order(&self.deleted);
        let mut pending = self.written;
        let mut pending_deletes = self.deleted;
        let mut written: BTreeMap<ObjectID, (ObjectRef, Object, WriteKind)> = BTreeMap::new();
        let mut i: usize = 0;
        while i < ids.len()
            invariant
                i <= ids@.len(),
                s.wf(),
                s.may_commit(),
                forall|object: Object| call_requires(*digest, (&object,)),
                lamport_timestamp == s.lamport_timestamp,
                is_ascending(ids@),
                ids@.to_set() == s.written.dom(),
                forall|j: int| 0 <= j < ids@.len() ==> s.written.contains_key(#[trigger] ids@[j]),
                forall|j: int|
                    i <= j < ids@.len() ==> pending@.contains_key(#[trigger] ids@[j]) && (
                    pending@[ids@[j]].0@, pending@[ids@[j]].1) == s.written[ids@[j]],
                forall|id: ObjectID| #[trigger]
                    written@.contains_key(id) <==> ids@.take(i as int).contains(id),
                forall|id: ObjectID| #[trigger]
                    written@.contains_key(id) ==> {
                        let (object_ref, object, kind) = written@[id];
                        &&& object@ == committed(
                            s.written[id].0,
                            s.written[id].1,
                            s.lamport_timestamp,
                        )
                        &&& kind == s.written[id].1
                        &&& object_ref.0 == id
                        &&& object_ref.1 == object@.version()
                        &&& call_ensures(*digest, (&object,), object_ref.2)
                    },
            decreases ids@.len() - i,
        {
            let id: ObjectID = ids[i];
            let ghost before = pending@;
            let ghost done = written@;
            assert(s.written.contains_key(ids@[i as int]));
            if let Some((object, kind)) = pending.remove(&id) {
                assert((object@, kind) == s.written[id]);
                let object = commit_object(object, kind, lamport_timestamp);
                let object_ref = object.compute_object_reference(digest);
                written.insert(id, (object_ref, object, kind));
            }
            proof {
                assert(ids@.take(i + 1) =~= ids@.take(i as int).push(id));
                assert forall|x: ObjectID| #[trigger]
                    written@.contains_key(x) <==> ids@.take(i + 1).contains(x) by {
                    if done.contains_key(x) {
                        let n = choose|n: int| 0 <= n < i && ids@.take(i as int)[n] == x;
                        assert(ids@.take(i + 1)[n] == x);
                    }
                    if x == id {
                        assert(ids@.take(i + 1)[i as int] == x);
                    }
                }
                assert forall|j: int| i + 1 <= j < ids@.len() implies pending@.contains_key(
                    #[trigger] ids@[j],
                ) && (pending@[ids@[j]].0@, pending@[ids@[j]].1) == s.written[ids@[j]] by {
                    assert(crate::order::id_before(ids@[i as int], ids@[j]));
                    assert(before.contains_key(ids@[j]));
                }
            }
            i = i + 1;
        }
        let mut deleted: BTreeMap<ObjectID, (SequenceNumber, DeleteKind)> = BTreeMap::new();
        let mut k: usize = 0;
        while k < deleted_ids.len()
            invariant
                k <= deleted_ids@.len(),
                s.wf(),
                s.may_commit(),
                lamport_timestamp == s.lamport_timestamp,
                is_ascending(deleted_ids@),
                deleted_ids@.to_set() == s.deleted.dom(),
                forall|j: int|
                    0 <= j < deleted_ids@.len() ==> s.deleted.contains_key(
                        #[trigger] deleted_ids@[j],
                    ),
                forall|j: int|
                    k <= j < deleted_ids@.len() ==> pending_deletes@.contains_key(
                        #[trigger] deleted_ids@[j],
                    ) && pending_deletes@[deleted_ids@[j]] == s.deleted[deleted_ids@[j]],
                forall|id: ObjectID| #[trigger]
                    deleted@.contains_key(id) <==> deleted_ids@.take(k as int).contains(id),
                forall|id: ObjectID| #[trigger]
                    deleted@.contains_key(id) ==> deleted@[id] == (
                        lamport_timestamp,
                        s.deleted[id].1,
                    ),
            decreases deleted_ids@.len() - k,
        {
            let id: ObjectID = deleted_ids[k];
            let ghost before = pending_deletes@;
            let ghost done = deleted@;
            assert(s.deleted.contains_key(deleted_ids@[k as int]));
            if let Some((version, kind)) = pending_deletes.remove(&id) {
                assert((version, kind) == s.deleted[id]);
                let mut version = version;
                version.increment_to(lamport_timestamp);
                deleted.insert(id, (version, kind));
            }
            proof {
                assert(deleted_ids@.take(k + 1) =~= deleted_ids@.take(k as int).push(id));
                assert forall|x: ObjectID| #[trigger]
                    deleted@.contains_key(x) <==> deleted_ids@.take(k + 1).contains(x) by {
                    if done.contains_key(x) {
                        let n = choose|n: int| 0 <= n < k && deleted_ids@.take(k as int)[n] == x;
                        assert(deleted_ids@.take(k + 1)[n] == x);
                    }
                    if x == id {
                        assert(deleted_ids@.take(k + 1)[k as int] == x);
                    }
                }
                assert forall|j: int| k + 1 <= j < deleted_ids@.len() implies pending_deletes@
                    .contains_key(#[trigger] deleted_ids@[j]) && pending_deletes@[deleted_ids@[j]]
                    == s.deleted[deleted_ids@[j]] by {
                    assert(crate::order::id_before(deleted_ids@[k as int], deleted_ids@[j]));
                    assert(before.contains_key(deleted_ids@[j]));
                }
            }
            k = k + 1;
        }
        proof {
            assert(ids@.take(ids@.len() as int) =~= ids@);
            assert(deleted_ids@.take(deleted_ids@.len() as int) =~= deleted_ids@);
            assert forall|id: ObjectID| written@.dom().contains(id) <==> s.written.dom().contains(
                id,
            ) by {
                assert(written@.contains_key(id) <==> ids@.contains(id));
                assert(ids@.to_set().contains(id) <==> ids@.contains(id));
            }
            assert(written@.dom() =~= s.written.dom());
            assert forall|id: ObjectID| deleted@.dom().contains(id) <==> s.deleted.dom().contains(
                id,
            ) by {
                assert(deleted@.contains_key(id) <==> deleted_ids@.contains(id));
                assert(deleted_ids@.to_set().contains(id) <==> deleted_ids@.contains(id));
            }
            assert(deleted@ =~= s.deleted.map_values(
                |e: (SequenceNumber, DeleteKind)| (s.lamport_timestamp, e.1),
            ));
        }
        InnerTemporaryStore {
            objects: self.input_objects,
            mutable_inputs: self.mutable_input_refs,
            written,
            deleted,
            events: TransactionEvents { data: self.events },
            max_binary_format_version,
        }
    }
}

/// The reference and the owner of the written object `id`, if it was written in the way `kind`.
pub open spec fn written_as(inner: InnerTemporaryStore, kind: WriteKind) -> spec_fn(
    ObjectID,
) -> Option<(ObjectRef, Owner)> {
    |id: ObjectID|
        if inner.written@[id].2 == kind {
            Some((inner.written@[id].0, inner.written@[id].1@.owner))
        } else {
            None
        }
}

/// The reference to the deleted object `id`, with `digest` in place of a digest, if it was deleted
/// in the way `kind`.
pub open spec fn deleted_as(
    inner: InnerTemporaryStore,
    kind: DeleteKind,
    digest: ObjectDigest,
) -> spec_fn(ObjectID) -> Option<ObjectRef> {
    |id: ObjectID|
        if inner.deleted@[id].1 == kind {
            Some((id, inner.deleted@[id].0, digest))
        } else {
            None
        }
}

impl StoreView {
    /// The version of the written object `id` before the transaction, if it existed then.
    pub open spec fn modified_version(self) -> spec_fn(ObjectID) -> Option<
        (ObjectID, SequenceNumber),
    > {
        |id: ObjectID|
            if self.written[id].1 is Mutate {
                Some((id, self.written[id].0.version()))
            } else {
                None
            }
    }

    /// The versions before the transaction of everything that it changed, and then of everything
    /// that it deleted.
    pub open spec fn modified_at_versions(self) -> Seq<(ObjectID, SequenceNumber)> {
        ascending(self.written.dom()).filter_map(self.modified_version()) + ascending(
            self.deleted.dom(),
        ).map_values(|id: ObjectID| (id, self.deleted[id].0))
    }
}

/// Whether the effects list what `inner` holds, each list in the order of the ids.
pub open spec fn lists_changes(effects: TransactionEffects, inner: InnerTemporaryStore) -> bool {
    let written = ascending(inner.written@.dom());
    let deleted = ascending(inner.deleted@.dom());
    &&& effects.created@ == written.filter_map(written_as(inner, WriteKind::Create))
    &&& effects.mutated@ == written.filter_map(written_as(inner, WriteKind::Mutate))
    &&& effects.unwrapped@ == written.filter_map(written_as(inner, WriteKind::Unwrap))
    &&& effects.deleted@ == deleted.filter_map(
        deleted_as(inner, DeleteKind::Normal, ObjectDigest::spec_deleted()),
    )
    &&& effects.unwrapped_then_deleted@ == deleted.filter_map(
        deleted_as(inner, DeleteKind::UnwrapThenDelete, ObjectDigest::spec_deleted()),
    )
    &&& effects.wrapped@ == deleted.filter_map(
        deleted_as(inner, DeleteKind::Wrap, ObjectDigest::spec_wrapped()),
    )
}

/// The gas coin after the transaction. A transaction that needs none gives its input for it.
pub open spec fn gas_object_of(inner: InnerTemporaryStore, gas: ObjectRef) -> (ObjectRef, Owner) {
    if gas.0 == NO_OBJECT {
        (gas, Owner::AddressOwner(SuiAddress { high: 0, low: 0 }))
    } else {
        (inner.written@[gas.0].0, inner.written@[gas.0].1@.owner)
    }
}

/// What was written, by how that came about, in the order of the ids: created, changed, unwrapped.
fn list_written(inner: &InnerTemporaryStore) -> (lists: (
    Vec<(ObjectRef, Owner)>,
    Vec<(ObjectRef, Owner)>,
    Vec<(ObjectRef, Owner)>,
))
    ensures
        lists.0@ == ascending(inner.written@.dom()).filter_map(
            written_as(*inner, WriteKind::Create),
        ),
        lists.1@ == ascending(inner.written@.dom()).filter_map(
            written_as(*inner, WriteKind::Mutate),
        ),
        lists.2@ == ascending(inner.written@.dom()).filter_map(
            written_as(*inner, WriteKind::Unwrap),
        ),
{
    let ids = keys_in_order(&inner.written);
    let ghost as_created = written_as(*inner, WriteKind::Create);
    let ghost as_mutated = written_as(*inner, WriteKind::Mutate);
    let ghost as_unwrapped = written_as(*inner, WriteKind::Unwrap);
    let mut created: Vec<(ObjectRef, Owner)> = Vec::new();
    let mut mutated: Vec<(ObjectRef, Owner)> = Vec::new();
    let mut unwrapped: Vec<(ObjectRef, Owner)> = Vec::new();
    let mut i: usize = 0;
    proof {
        reveal(Seq::filter_map);
        assert(ids@.take(0) =~= Seq::<ObjectID>::empty());
        assert(created@ =~= ids@.take(0).filter_map(as_created));
        assert(mutated@ =~= ids@.take(0).filter_map(as_mutated));
        assert(unwrapped@ =~= ids@.take(0).filter_map(as_unwrapped));
    }
    while i < ids.len()
        invariant
            i <= ids@.len(),
            forall|j: int|
                0 <= j < ids@.len() ==> inner.written@.contains_key(#[trigger] ids@[j]),
            as_created == written_as(*inner, WriteKind::Create),
            as_mutated == written_as(*inner, WriteKind::Mutate),
            as_unwrapped == written_as(*inner, WriteKind::Unwrap),
            created@ == ids@.take(i as int).filter_map(as_created),
            mutated@ == ids@.take(i as int).filter_map(as_mutated),
            unwrapped@ == ids@.take(i as int).filter_map(as_unwrapped),
        decreases ids@.len() - i,
    {
        let id: ObjectID = ids[i];
        proof {
            assert(inner.written@.contains_key(ids@[i as int]));
            ids@.lemma_filter_map_take_succ(as_created, i as int);
            ids@.lemma_filter_map_take_succ(as_mutated, i as int);
            ids@.lemma_filter_map_take_succ(as_unwrapped, i as int);
        }
        if let Some(entry) = inner.written.get(&id) {
            match entry.2 {
                WriteKind::Mutate => mutated.push((entry.0, entry.1.owner)),
                WriteKind::Create => created.push((entry.0, entry.1.owner)),
                WriteKind::Unwrap => unwrapped.push((entry.0, entry.1.owner)),
            }
        }
        i = i + 1;
    }
    assert(ids@.take(i as int) =~= ids@);
    (created, mutated, unwrapped)
}

/// What was deleted, by how that came about, in the order of the ids: deleted, unwrapped and then
/// deleted, wrapped.
fn list_deleted(inner: &InnerTemporaryStore) -> (lists: (
    Vec<ObjectRef>,
    Vec<ObjectRef>,
    Vec<ObjectRef>,
))
    ensures
        lists.0@ == ascending(inner.deleted@.dom()).filter_map(
            deleted_as(*inner, DeleteKind::Normal, ObjectDigest::spec_deleted()),
        ),
        lists.1@ == ascending(inner.deleted@.dom()).filter_map(
            deleted_as(*inner, DeleteKind::UnwrapThenDelete, ObjectDigest::spec_deleted()),
        ),
        lists.2@ == ascending(inner.deleted@.dom()).filter_map(
            deleted_as(*inner, DeleteKind::Wrap, ObjectDigest::spec_wrapped()),
        ),
{
    let ids = keys_in_order(&inner.deleted);
    let ghost as_deleted = deleted_as(*inner, DeleteKind::Normal, ObjectDigest::spec_deleted());
    let ghost as_unwrapped = deleted_as(
        *inner,
        DeleteKind::UnwrapThenDelete,
        ObjectDigest::spec_deleted(),
    );
    let ghost as_wrapped = deleted_as(*inner, DeleteKind::Wrap, ObjectDigest::spec_wrapped());
    let mut deleted: Vec<ObjectRef> = Vec::new();
    let mut unwrapped_then_deleted: Vec<ObjectRef> = Vec::new();
    let mut wrapped: Vec<ObjectRef> = Vec::new();
    let mut i: usize = 0;
    proof {
        reveal(Seq::filter_map);
        assert(ids@.take(0) =~= Seq::<ObjectID>::empty());
        assert(deleted@ =~= ids@.take(0).filter_map(as_deleted));
        assert(unwrapped_then_deleted@ =~= ids@.take(0).filter_map(as_unwrapped));
        assert(wrapped@ =~= ids@.take(0).filter_map(as_wrapped));
    }
    while i < ids.len()
        invariant
            i <= ids@.len(),
            forall|j: int|
                0 <= j < ids@.len() ==> inner.deleted@.contains_key(#[trigger] ids@[j]),
            as_deleted == deleted_as(*inner, DeleteKind::Normal, ObjectDigest::spec_deleted()),
            as_unwrapped == deleted_as(
                *inner,
                DeleteKind::UnwrapThenDelete,
                ObjectDigest::spec_deleted(),
            ),
            as_wrapped == deleted_as(*inner, DeleteKind::Wrap, ObjectDigest::spec_wrapped()),
            deleted@ == ids@.take(i as int).filter_map(as_deleted),
            unwrapped_then_deleted@ == ids@.take(i as int).filter_map(as_unwrapped),
            wrapped@ == ids@.take(i as int).filter_map(as_wrapped),
        decreases ids@.len() - i,
    {
        let id: ObjectID = ids[i];
        proof {
            assert(inner.deleted@.contains_key(ids@[i as int]));
            ids@.lemma_filter_map_take_succ(as_deleted, i as int);
            ids@.lemma_filter_map_take_succ(as_unwrapped, i as int);
            ids@.lemma_filter_map_take_succ(as_wrapped, i as int);
        }
        if let Some(entry) = inner.deleted.get(&id) {
            match entry.1 {
                DeleteKind::Normal => deleted.push((id, entry.0, ObjectDigest::deleted())),
                DeleteKind::UnwrapThenDelete => unwrapped_then_deleted.push(
                    (id, entry.0, ObjectDigest::deleted()),
                ),
                DeleteKind::Wrap => wrapped.push((id, entry.0, ObjectDigest::wrapped())),
            }
        }
        i = i + 1;
    }
    assert(ids@.take(i as int) =~= ids@);
    (deleted, unwrapped_then_deleted, wrapped)
}

impl<S> TemporaryStore<S> {
    /// The versions before the transaction of everything that it changed or deleted.
    fn list_modified_versions(&self) -> (versions: Vec<(ObjectID, SequenceNumber)>)
        ensures
            versions@ == self@.modified_at_versions(),
    {
        let ghost s = self@;
        let ghost pick = s.modified_version();
        let ids = keys_in_order(&self.written);
        let deleted_ids = keys_in_order(&self.deleted);
        assert(s.written.dom() =~= self.written@.dom());
        let mut versions: Vec<(ObjectID, SequenceNumber)> = Vec::new();
        let mut i: usize = 0;
        proof {
            reveal(Seq::filter_map);
            assert(ids@.take(0) =~= Seq::<ObjectID>::empty());
            assert(versions@ =~= ids@.take(0).filter_map(pick));
        }
        while i < ids.len()
            invariant
                i <= ids@.len(),
                s == self@,
                pick == s.modified_version(),
                forall|j: int| 0 <= j < ids@.len() ==> s.written.contains_key(#[trigger] ids@[j]),
                versions@ == ids@.take(i as int).filter_map(pick),
            decreases ids@.len() - i,
        {
            let id: ObjectID = ids[i];
            proof {
                assert(s.written.contains_key(ids@[i as int]));
                ids@.lemma_filter_map_take_succ(pick, i as int);
            }
            if let Some(entry) = self.written.get(&id) {
                if let WriteKind::Mutate = entry.1 {
                    versions.push((id, entry.0.version()));
                }
            }
            i = i + 1;
        }
        assert(ids@.take(i as int) =~= ids@);
        let ghost of_written = versions@;
        let ghost version_of = |id: ObjectID| (id, s.deleted[id].0);
        let mut k: usize = 0;
        assert(versions@ =~= of_written + deleted_ids@.take(0).map_values(version_of));
        while k < deleted_ids.len()
            invariant
                k <= deleted_ids@.len(),
                s == self@,
                version_of == (|id: ObjectID| (id, s.deleted[id].0)),
                forall|j: int|
                    0 <= j < deleted_ids@.len() ==> s.deleted.contains_key(
                        #[trigger] deleted_ids@[j],
                    ),
                versions@ == of_written + deleted_ids@.take(k as int).map_values(version_of),
            decreases deleted_ids@.len() - k,
        {
            let id: ObjectID = deleted_ids[k];
            assert(s.deleted.contains_key(deleted_ids@[k as int]));
            if let Some(entry) = self.deleted.get(&id) {
                versions.push((id, entry.0));
            }
            assert(versions@ =~= of_written + deleted_ids@.take(k + 1).map_values(version_of));
            k = k + 1;
        }
        assert(deleted_ids@.take(k as int) =~= deleted_ids@);
        versions
    }

    /// Commits the store, and gives the effects of the transaction beside what the store held.
    /// `digest` computes the digest of an object, and `events_digest` that of the events.
    pub fn to_effects<F: Fn(&Object) -> ObjectDigest, G: Fn(
        &TransactionEvents,
    ) -> TransactionEventsDigest>(
        self,
        shared_object_refs: Vec<ObjectRef>,
        transaction_digest: &TransactionDigest,
        transaction_dependencies: Vec<TransactionDigest>,
        gas_cost_summary: GasCostSummary,
        status: ExecutionStatus,
        gas: &[ObjectRef],
        epoch: EpochId,
        digest: &F,
        events_digest: &G,
    ) -> (result: (InnerTemporaryStore, TransactionEffects))
        requires
            self.wf(),
            self@.may_commit(),
            gas@.len() >= 1,
            gas@[0].0 == NO_OBJECT || self@.written.contains_key(gas@[0].0),
            forall|object: Object| call_requires(*digest, (&object,)),
            forall|events: TransactionEvents| call_requires(*events_digest, (&events,)),
        ensures
            is_commit_of(result.0, self@, *digest),
            lists_changes(result.1, result.0),
            result.1.protocol_version == self@.protocol_config.version,
            result.1.status == status,
            result.1.executed_epoch == epoch,
            result.1.gas_used == gas_cost_summary,
            result.1.modified_at_versions@ == self@.modified_at_versions(),
            result.1.shared_objects@ == shared_object_refs@,
            result.1.transaction_digest == *transaction_digest,
            result.1.gas_object == gas_object_of(result.0, gas@[0]),
            result.1.events_digest is None <==> self@.events.len() == 0,
            result.1.events_digest matches Some(d) ==> call_ensures(
                *events_digest,
                (&result.0.events,),
                d,
            ),
            result.1.dependencies@ == transaction_dependencies@,
    {
        let modified_at_versions = self.list_modified_versions();
        let protocol_version: u64 = self.protocol_config.version;
        let inner = self.into_inner(digest);
        let gas_object_ref: ObjectRef = gas[0];
        let mut gas_object = (gas_object_ref, Owner::AddressOwner(SuiAddress { high: 0, low: 0 }));
        if !(gas_object_ref.0.0 == 0 && gas_object_ref.0.1 == 0) {
            if let Some(entry) = inner.written.get(&gas_object_ref.0) {
                gas_object = (entry.0, entry.1.owner);
            }
        }
        let (created, mutated, unwrapped) = list_written(&inner);
        let (deleted, unwrapped_then_deleted, wrapped) = list_deleted(&inner);
        let digest_of_events = if inner.events.data.len() == 0 {
            None
        } else {
            Some(events_digest(&inner.events))
        };
        let effects = TransactionEffects {
            protocol_version,
            status,
            executed_epoch: epoch,
            gas_used: gas_cost_summary,
            modified_at_versions,
            shared_objects: shared_object_refs,
            transaction_digest: *transaction_digest,
            created,
            mutated,
            unwrapped,
            deleted,
            unwrapped_then_deleted,
            wrapped,
            gas_object,
            events_digest: digest_of_events,
            dependencies: transaction_dependencies,
        };
        (inner, effects)
    }

    /// An upper bound on the size of the effects. At worst, the transaction depends on as many
    /// others as it has inputs.
    pub fn estimate_effects_size_upperbound(&self) -> (size: usize)
        requires
            effects_size(
                self@.written.len(),
                self@.mutable_inputs.len(),
                self@.deleted.len(),
                self@.input_objects.len(),
            ) <= usize::MAX,
        ensures
            size == effects_size(
                self@.written.len(),
                self@.mutable_inputs.len(),
                self@.deleted.len(),
                self@.input_objects.len(),
            ),
    {
        assert(self@.written.dom() =~= self.written@.dom());
        assert(self@.input_objects.dom() =~= self.input_objects@.dom());
        TransactionEffects::estimate_effects_size_upperbound(
            self.written.len(),
            self.mutable_input_refs.len(),
            self.deleted.len(),
            self.input_objects.len(),
        )
    }
}

/// A written object as it is committed.
fn commit_object(object: Object, kind: WriteKind, lamport_timestamp: SequenceNumber) -> (result:
    Object)
    requires
        object@.wf(),
        may_commit_object(object@, kind, lamport_timestamp),
    ensures
        result@ == committed(object@, kind, lamport_timestamp),
        result@.wf(),
        result@.id() == object@.id(),
{
    let ghost before = object@;
    let mut object = object;
    match &mut object.data {
        Data::Move(m) => {
            m.version.increment_to(lamport_timestamp);
        },
        Data::Package(p) => {
            if let WriteKind::Mutate = kind {
                p.version.increment();
            }
        },
    }
    if let WriteKind::Create = kind {
        if let Owner::Shared { initial_shared_version: _ } = object.owner {
            object.owner = Owner::Shared { initial_shared_version: lamport_timestamp };
        }
    }
    assert(object@ == committed(before, kind, lamport_timestamp));
    assert(object@.size() == before.size());
    object
}

} // verus!

use crate::base_types::{ObjectID, ObjectRef, SequenceNumber, SuiAddress};
use crate::error::SuiResult;
use crate::event::TransactionEvents;
use crate::object::Object;
use crate::order::{ascending, keys_in_order};
use crate::storage::{DeleteKind, WriteKind};
use crate::system_state::{get_sui_system_state, system_state_in, SuiSystemState};
use std::collections::BTreeMap;
use vstd::prelude::*;

verus! {

broadcast use vstd::laws_cmp::group_laws_cmp;

/// What a transaction read and wrote, once it is done. The versions of the written objects are set.
#[derive(Debug, PartialEq, Eq)]
pub struct InnerTemporaryStore {
    pub objects: BTreeMap<ObjectID, Object>,
    pub mutable_inputs: Vec<ObjectRef>,
    pub written: BTreeMap<ObjectID, (ObjectRef, Object, WriteKind)>,
    pub deleted: BTreeMap<ObjectID, (SequenceNumber, DeleteKind)>,
    pub events: TransactionEvents,
    pub max_binary_format_version: u32,
}

impl InnerTemporaryStore {
    /// The id of the written object `id`, if the transaction created it.
    pub open spec fn created_id(self, id: ObjectID) -> Option<ObjectID> {
        if self.written@[id].2 is Create {
            Some(self.written@[id].0.0)
        } else {
            None
        }
    }

    /// The id of the written object `id`, if `address` owns it.
    pub open spec fn owned_id(self, id: ObjectID, address: SuiAddress) -> Option<ObjectID> {
        if self.written@[id].1@.owner.single() == Some(address) {
            Some(self.written@[id].1@.id())
        } else {
            None
        }
    }

    /// The object `id` as the transaction wrote it, if it did.
    pub fn get_written_object(&self, id: &ObjectID) -> (object: Option<&Object>)
        ensures
            object is Some <==> self.written@.contains_key(*id),
            object matches Some(o) ==> *o == self.written@[*id].1,
    {
        match self.written.get(id) {
            Some(entry) => Some(&entry.1),
            None => None,
        }
    }

    /// The ids of the objects that the transaction created, in ascending order.
    pub fn created(&self) -> (ids: Vec<ObjectID>)
        ensures
            ids@ == ascending(self.written@.dom()).filter_map(|id: ObjectID| self.created_id(id)),
    {
        let keys = keys_in_order(&self.written);
        let ghost pick = |id: ObjectID| self.created_id(id);
        let mut ids: Vec<ObjectID> = Vec::new();
        let mut i: usize = 0;
        proof {
            reveal(Seq::filter_map);
            assert(keys@.take(0).filter_map(pick) =~= Seq::<ObjectID>::empty());
        }
        while i < keys.len()
            invariant
                i <= keys@.len(),
                forall|j: int|
                    0 <= j < keys@.len() ==> self.written@.contains_key(#[trigger] keys@[j]),
                pick == (|id: ObjectID| self.created_id(id)),
                ids@ == keys@.take(i as int).filter_map(pick),
            decreases keys@.len() - i,
        {
            let key: ObjectID = keys[i];
            proof {
                assert(self.written@.contains_key(keys@[i as int]));
                keys@.lemma_filter_map_take_succ(pick, i as int);
            }
            if let Some(entry) = self.written.get(&key) {
                if let WriteKind::Create = entry.2 {
                    ids.push(entry.0.0);
                }
            }
            i = i + 1;
        }
        assert(keys@.take(i as int) =~= keys@);
        ids
    }

    /// The ids of the written objects that `address` owns, in ascending order.
    pub fn get_written_objects_owned_by(&self, address: &SuiAddress) -> (ids: Vec<ObjectID>)
        requires
            forall|id: ObjectID| #[trigger]
                self.written@.contains_key(id) && self.written@[id].1@.owner.single() == Some(
                    *address,
                ) ==> self.written@[id].1@.has_id(),
        ensures
            ids@ == ascending(self.written@.dom()).filter_map(
                |id: ObjectID| self.owned_id(id, *address),
            ),
    {
        let keys = keys_in_order(&self.written);
        let ghost pick = |id: ObjectID| self.owned_id(id, *address);
        let mut ids: Vec<ObjectID> = Vec::new();
        let mut i: usize = 0;
        proof {
            reveal(Seq::filter_map);
            assert(keys@.take(0).filter_map(pick) =~= Seq::<ObjectID>::empty());
        }
        while i < keys.len()
            invariant
                i <= keys@.len(),
                forall|id: ObjectID| #[trigger]
                    self.written@.contains_key(id) && self.written@[id].1@.owner.single() == Some(
                        *address,
                    ) ==> self.written@[id].1@.has_id(),
                forall|j: int|
                    0 <= j < keys@.len() ==> self.written@.contains_key(#[trigger] keys@[j]),
                pick == (|id: ObjectID| self.owned_id(id, *address)),
                ids@ == keys@.take(i as int).filter_map(pick),
            decreases keys@.len() - i,
        {
            let key: ObjectID = keys[i];
            proof {
                assert(self.written@.contains_key(keys@[i as int]));
                keys@.lemma_filter_map_take_succ(pick, i as int);
            }
            if let Some(entry) = self.written.get(&key) {
                if let Some(owner) = entry.1.get_single_owner() {
                    if owner == *address {
                        ids.push(entry.1.id());
                    }
                }
            }
            i = i + 1;
        }
        assert(keys@.take(i as int) =~= keys@);
        ids
    }

    /// The system state object as the transaction wrote it.
    pub fn get_sui_system_state_object(&self) -> (state: SuiResult<SuiSystemState>)
        ensures
            system_state_in(self.written, state),
    {
        get_sui_system_state(&self.written)
    }
}

} // verus!

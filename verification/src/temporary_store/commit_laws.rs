use crate::base_types::{ObjectDigest, ObjectID, ObjectRef, SequenceNumber, SuiAddress};
use crate::effects::{effects_size, TransactionEffects};
use crate::inner::InnerTemporaryStore;
use crate::object::{DataView, MoveObjectView, Object, ObjectView, Owner};
use crate::order::{ascending, id_before, is_ascending, lemma_ascending};
use crate::storage::{DeleteKind, WriteKind};
use crate::temporary_store::commit::{
    committed, deleted_as, gas_object_of, is_commit_of, lists_changes, written_as, StoreFault,
};
use crate::temporary_store::lookup_laws::lemma_picked_from_set;
use crate::temporary_store::model::StoreView;
use vstd::prelude::*;

verus! {

/// Committing a Move object gives it the version of the transaction; a package that was changed goes
/// up by one, and one that was created or unwrapped stays as it is. An object that was created as
/// shared is on record as shared since then. Nothing else of an object changes.
pub proof fn law_commit_changes_versions_alone(
    object: ObjectView,
    kind: WriteKind,
    lamport_timestamp: SequenceNumber,
)
    ensures
        ({
            let after = committed(object, kind, lamport_timestamp);
            &&& after.storage_rebate == object.storage_rebate
            &&& after.previous_transaction == object.previous_transaction
            &&& match object.data {
                DataView::Move(m) => {
                    &&& after.data is Move
                    &&& after.data->Move_0.version == lamport_timestamp
                    &&& after.data->Move_0.type_ == m.type_
                    &&& after.data->Move_0.has_public_transfer == m.has_public_transfer
                    &&& after.data->Move_0.contents == m.contents
                },
                DataView::Package(p) => {
                    &&& after.data is Package
                    &&& after.data->Package_0.id == p.id
                    &&& after.data->Package_0.modules == p.modules
                    &&& kind == WriteKind::Mutate && p.version.value < u64::MAX
                        ==> after.data->Package_0.version.value == p.version.value + 1
                    &&& kind != WriteKind::Mutate ==> after.data->Package_0.version == p.version
                },
            }
            &&& match object.owner {
                Owner::Shared { initial_shared_version } => after.owner == (Owner::Shared {
                    initial_shared_version: if kind == WriteKind::Create {
                        lamport_timestamp
                    } else {
                        initial_shared_version
                    },
                }),
                _ => after.owner == object.owner,
            }
        }),
{
}

/// A committed transaction holds just what the store held: its inputs, what it wrote and deleted and
/// in which way, and its events. Every reference names the object it stands for and the version that
/// the object then has, and every deleted object has the version of the transaction.
pub proof fn law_commit_keeps_everything<F: Fn(&Object) -> ObjectDigest>(
    inner: InnerTemporaryStore,
    s: StoreView,
    digest: F,
    id: ObjectID,
)
    requires
        is_commit_of(inner, s, digest),
    ensures
        inner.objects@.contains_key(id) <==> s.input_objects.contains_key(id),
        inner.objects@.contains_key(id) ==> inner.objects@[id]@ == s.input_objects[id],
        inner.mutable_inputs@ == s.mutable_inputs,
        inner.events.data@ == s.events,
        inner.max_binary_format_version == s.protocol_config.move_binary_format_version,
        inner.written@.contains_key(id) <==> s.written.contains_key(id),
        inner.written@.contains_key(id) ==> {
            let (object_ref, object, kind) = inner.written@[id];
            &&& kind == s.written[id].1
            &&& object_ref.0 == id
            &&& object@.data matches DataView::Move(m) ==> object_ref.1 == m.version && m.version
                == s.lamport_timestamp
            &&& object@.data matches DataView::Package(p) ==> object_ref.1 == p.version
            &&& call_ensures(digest, (&object,), object_ref.2)
            &&& object@.storage_rebate == s.written[id].0.storage_rebate
            &&& object@.previous_transaction == s.written[id].0.previous_transaction
            &&& s.written[id].0.data matches DataView::Move(m) ==> object@.data == DataView::Move(
                MoveObjectView { version: s.lamport_timestamp, ..m },
            )
            &&& s.written[id].0.data matches DataView::Package(p) ==> object@.data is Package
                && object@.data->Package_0.id == p.id && object@.data->Package_0.modules
                == p.modules
            &&& !(s.written[id].0.owner is Shared) ==> object@.owner == s.written[id].0.owner
        },
        inner.deleted@.contains_key(id) <==> s.deleted.contains_key(id),
        inner.deleted@.contains_key(id) ==> inner.deleted@[id] == (
            s.lamport_timestamp,
            s.deleted[id].1,
        ),
{
    assert(inner.written@.dom().contains(id) <==> s.written.dom().contains(id));
    assert(s.input_objects.dom() =~= inner.objects@.dom());
    if inner.objects@.contains_key(id) {
        assert(s.input_objects.dom().contains(id));
    }
    assert(inner.deleted@.dom() =~= s.deleted.dom());
    if inner.deleted@.contains_key(id) {
        assert(s.deleted.dom().contains(id));
    }
}

/// A list of the effects holds just the written objects that came about in its way, each with its
/// reference and its owner.
pub proof fn law_lists_hold_just_their_kind(
    effects: TransactionEffects,
    inner: InnerTemporaryStore,
    entry: (ObjectRef, Owner),
)
    requires
        inner.written@.dom().finite(),
        lists_changes(effects, inner),
    ensures
        effects.created@.contains(entry) <==> exists|id: ObjectID| #[trigger]
            inner.written@.contains_key(id) && inner.written@[id].2 == WriteKind::Create
                && inner.written@[id].0 == entry.0 && inner.written@[id].1.owner == entry.1,
        effects.mutated@.contains(entry) <==> exists|id: ObjectID| #[trigger]
            inner.written@.contains_key(id) && inner.written@[id].2 == WriteKind::Mutate
                && inner.written@[id].0 == entry.0 && inner.written@[id].1.owner == entry.1,
        effects.unwrapped@.contains(entry) <==> exists|id: ObjectID| #[trigger]
            inner.written@.contains_key(id) && inner.written@[id].2 == WriteKind::Unwrap
                && inner.written@[id].0 == entry.0 && inner.written@[id].1.owner == entry.1,
{
    lemma_list_of_kind(inner, WriteKind::Create, entry);
    lemma_list_of_kind(inner, WriteKind::Mutate, entry);
    lemma_list_of_kind(inner, WriteKind::Unwrap, entry);
}

proof fn lemma_list_of_kind(
    inner: InnerTemporaryStore,
    kind: WriteKind,
    entry: (ObjectRef, Owner),
)
    requires
        inner.written@.dom().finite(),
    ensures
        ascending(inner.written@.dom()).filter_map(written_as(inner, kind)).contains(entry)
            <==> exists|id: ObjectID| #[trigger]
            inner.written@.contains_key(id) && inner.written@[id].2 == kind
                && inner.written@[id].0 == entry.0 && inner.written@[id].1.owner == entry.1,
{
    let pick = written_as(inner, kind);
    let ids = inner.written@.dom();
    lemma_picked_from_set(ids, pick, entry);
    if exists|id: ObjectID| ids.contains(id) && #[trigger] pick(id) == Some(entry) {
        let id = choose|id: ObjectID| ids.contains(id) && #[trigger] pick(id) == Some(entry);
        assert(inner.written@.contains_key(id));
    }
    if exists|id: ObjectID| #[trigger]
        inner.written@.contains_key(id) && inner.written@[id].2 == kind && inner.written@[id].0
            == entry.0 && inner.written@[id].1.owner == entry.1 {
        let id = choose|id: ObjectID| #[trigger]
            inner.written@.contains_key(id) && inner.written@[id].2 == kind && inner.written@[id].0
                == entry.0 && inner.written@[id].1.owner == entry.1;
        assert(ids.contains(id) && pick(id) == Some(entry));
    }
}

/// The digest that every byte of which is `b`, given as half of it.
pub open spec fn filled(half: u128) -> ObjectDigest {
    ObjectDigest { high: half, low: half }
}

/// A list of the effects holds just the deleted objects that were deleted in its way, each with its
/// version and with a digest that stands for that: every byte is 99 for an object that is gone, and
/// 88 for one that was wrapped.
pub proof fn law_lists_hold_just_their_deletions(
    effects: TransactionEffects,
    inner: InnerTemporaryStore,
    entry: ObjectRef,
)
    requires
        inner.deleted@.dom().finite(),
        lists_changes(effects, inner),
    ensures
        effects.deleted@.contains(entry) <==> inner.deleted@.contains_key(entry.0)
            && inner.deleted@[entry.0] == (entry.1, DeleteKind::Normal) && entry.2 == filled(
            0x6363_6363_6363_6363_6363_6363_6363_6363,
        ),
        effects.unwrapped_then_deleted@.contains(entry) <==> inner.deleted@.contains_key(entry.0)
            && inner.deleted@[entry.0] == (entry.1, DeleteKind::UnwrapThenDelete) && entry.2
            == filled(0x6363_6363_6363_6363_6363_6363_6363_6363),
        effects.wrapped@.contains(entry) <==> inner.deleted@.contains_key(entry.0)
            && inner.deleted@[entry.0] == (entry.1, DeleteKind::Wrap) && entry.2 == filled(
            0x5858_5858_5858_5858_5858_5858_5858_5858,
        ),
{
    lemma_list_of_deletions(
        inner,
        DeleteKind::Normal,
        filled(0x6363_6363_6363_6363_6363_6363_6363_6363),
        entry,
    );
    lemma_list_of_deletions(
        inner,
        DeleteKind::UnwrapThenDelete,
        filled(0x6363_6363_6363_6363_6363_6363_6363_6363),
        entry,
    );
    lemma_list_of_deletions(
        inner,
        DeleteKind::Wrap,
        filled(0x5858_5858_5858_5858_5858_5858_5858_5858),
        entry,
    );
}

proof fn lemma_list_of_deletions(
    inner: InnerTemporaryStore,
    kind: DeleteKind,
    digest: ObjectDigest,
    entry: ObjectRef,
)
    requires
        inner.deleted@.dom().finite(),
    ensures
        ascending(inner.deleted@.dom()).filter_map(deleted_as(inner, kind, digest)).contains(entry)
            <==> inner.deleted@.contains_key(entry.0) && inner.deleted@[entry.0] == (
            entry.1,
            kind,
        ) && entry.2 == digest,
{
    let pick = deleted_as(inner, kind, digest);
    let ids = inner.deleted@.dom();
    lemma_picked_from_set(ids, pick, entry);
    if exists|id: ObjectID| ids.contains(id) && #[trigger] pick(id) == Some(entry) {
        let id = choose|id: ObjectID| ids.contains(id) && #[trigger] pick(id) == Some(entry);
        assert(id == entry.0);
        assert(inner.deleted@.contains_key(id));
    }
    if inner.deleted@.contains_key(entry.0) && inner.deleted@[entry.0] == (entry.1, kind)
        && entry.2 == digest {
        assert(ids.contains(entry.0) && pick(entry.0) == Some(entry));
    }
}

/// The version that an object has.
pub open spec fn version_in(data: DataView) -> SequenceNumber {
    match data {
        DataView::Move(m) => m.version,
        DataView::Package(p) => p.version,
    }
}

proof fn lemma_number_picked<B>(
    ids: Seq<ObjectID>,
    pick: spec_fn(ObjectID) -> Option<B>,
    counted: spec_fn(ObjectID) -> bool,
)
    requires
        is_ascending(ids),
        forall|i: int| 0 <= i < ids.len() ==> (pick(#[trigger] ids[i]) is Some <==> counted(ids[i])),
    ensures
        ids.filter_map(pick).len() == ids.to_set().filter(counted).len(),
        ids.to_set().filter(counted).finite(),
    decreases ids.len(),
{
    reveal(Seq::filter_map);
    if ids.len() == 0 {
        assert(ids.to_set().filter(counted) =~= Set::<ObjectID>::empty());
    } else {
        let rest = ids.drop_last();
        let last = ids.last();
        assert forall|i: int| 0 <= i < rest.len() implies (pick(#[trigger] rest[i]) is Some
            <==> counted(rest[i])) by {
            assert(rest[i] == ids[i]);
        }
        assert forall|i: int, j: int| 0 <= i < j < rest.len() implies id_before(
            #[trigger] rest[i],
            #[trigger] rest[j],
        ) by {
            assert(id_before(ids[i], ids[j]));
        }
        lemma_number_picked(rest, pick, counted);
        assert(pick(ids[ids.len() - 1]) is Some <==> counted(ids[ids.len() - 1]));
        assert forall|x: ObjectID| ids.to_set().contains(x) <==> rest.to_set().contains(x) || x
            == last by {
            if rest.to_set().contains(x) {
                let i = choose|i: int| 0 <= i < rest.len() && rest[i] == x;
                assert(ids[i] == x);
            }
            if ids.to_set().contains(x) && x != last {
                let i = choose|i: int| 0 <= i < ids.len() && ids[i] == x;
                assert(rest[i] == x);
            }
            if x == last {
                assert(ids[ids.len() - 1] == x);
            }
        }
        assert(!rest.to_set().contains(last)) by {
            if rest.to_set().contains(last) {
                let i = choose|i: int| 0 <= i < rest.len() && rest[i] == last;
                assert(id_before(ids[i], ids[ids.len() - 1]));
            }
        }
        if counted(last) {
            assert(ids.to_set().filter(counted) =~= rest.to_set().filter(counted).insert(last));
        } else {
            assert(ids.to_set().filter(counted) =~= rest.to_set().filter(counted));
        }
    }
}

/// The effects name the version before the transaction of every object that was changed, whoever
/// owns it, and of every object that was deleted, and name nothing else and nothing twice.
pub proof fn law_every_modified_version_is_listed(s: StoreView, id: ObjectID, version: SequenceNumber)
    requires
        s.written.dom().finite(),
        s.deleted.dom().finite(),
    ensures
        s.modified_at_versions().contains((id, version)) <==> {
            ||| s.written.contains_key(id) && s.written[id].1 == WriteKind::Mutate && version_in(
                s.written[id].0.data,
            ) == version
            ||| s.deleted.contains_key(id) && s.deleted[id].0 == version
        },
        s.modified_at_versions().len() == s.written.dom().filter(
            |x: ObjectID| s.written[x].1 == WriteKind::Mutate,
        ).len() + s.deleted.dom().len(),
{
    let pick = s.modified_version();
    let changed = ascending(s.written.dom()).filter_map(pick);
    let gone = ascending(s.deleted.dom());
    let listed = gone.map_values(|x: ObjectID| (x, s.deleted[x].0));
    let all = changed + listed;
    let entry = (id, version);
    lemma_ascending(s.written.dom());
    lemma_ascending(s.deleted.dom());
    lemma_picked_from_set(s.written.dom(), pick, entry);
    gone.unique_seq_to_set();
    let counted = |x: ObjectID| s.written[x].1 == WriteKind::Mutate;
    lemma_number_picked(ascending(s.written.dom()), pick, counted);
    if all.contains(entry) {
        let k = choose|k: int| 0 <= k < all.len() && all[k] == entry;
        if k < changed.len() {
            assert(changed[k] == entry);
            assert(changed.contains(entry));
            let x = choose|x: ObjectID|
                s.written.dom().contains(x) && #[trigger] pick(x) == Some(entry);
            assert(s.written.contains_key(x));
        } else {
            assert(listed[k - changed.len()] == entry);
            assert(s.deleted.dom().contains(gone[k - changed.len()]));
            assert(s.deleted.contains_key(id));
        }
    }
    if s.written.contains_key(id) && s.written[id].1 == WriteKind::Mutate && version_in(
        s.written[id].0.data,
    ) == version {
        assert(s.written.dom().contains(id) && pick(id) == Some(entry));
        let k = choose|k: int| 0 <= k < changed.len() && changed[k] == entry;
        assert(all[k] == entry);
    }
    if s.deleted.contains_key(id) && s.deleted[id].0 == version {
        assert(s.deleted.dom().contains(id));
        let k = choose|k: int| 0 <= k < gone.len() && gone[k] == id;
        assert(listed[k] == entry);
        assert(all[changed.len() + k] == entry);
    }
}

/// What is picked from ascending ids, each with its id as its key, has ascending keys.
proof fn lemma_keys_in_order<B>(
    ids: Seq<ObjectID>,
    pick: spec_fn(ObjectID) -> Option<B>,
    key: spec_fn(B) -> ObjectID,
)
    requires
        is_ascending(ids),
        forall|i: int, b: B|
            0 <= i < ids.len() && pick(#[trigger] ids[i]) == Some(b) ==> #[trigger] key(b) == ids[i],
    ensures
        is_ascending(ids.filter_map(pick).map_values(key)),
        forall|k: int|
            0 <= k < ids.filter_map(pick).len() ==> ids.contains(
                key(#[trigger] ids.filter_map(pick)[k]),
            ),
    decreases ids.len(),
{
    reveal(Seq::filter_map);
    if ids.len() > 0 {
        let rest = ids.drop_last();
        let fewer = rest.filter_map(pick);
        let all = ids.filter_map(pick);
        let n = fewer.len() as int;
        assert forall|i: int, b: B|
            0 <= i < rest.len() && pick(#[trigger] rest[i]) == Some(b) implies #[trigger] key(b)
            == rest[i] by {
            assert(pick(ids[i]) == Some(b));
        }
        assert forall|i: int, j: int| 0 <= i < j < rest.len() implies id_before(
            #[trigger] rest[i],
            #[trigger] rest[j],
        ) by {
            assert(id_before(ids[i], ids[j]));
        }
        lemma_keys_in_order(rest, pick, key);
        let last = ids[ids.len() - 1];
        if all.len() > n {
            assert(pick(last) == Some(all[n]));
            assert(key(all[n]) == last);
        }
        assert forall|k: int| 0 <= k < n implies id_before(key(#[trigger] all[k]), last)
            && ids.contains(key(all[k])) by {
            assert(all[k] == fewer[k]);
            assert(rest.contains(key(fewer[k])));
            let i = choose|i: int| 0 <= i < rest.len() && rest[i] == key(fewer[k]);
            assert(ids[i] == key(fewer[k]));
            assert(id_before(ids[i], ids[ids.len() - 1]));
        }
        let keys = all.map_values(key);
        assert forall|i: int, j: int| 0 <= i < j < keys.len() implies id_before(
            #[trigger] keys[i],
            #[trigger] keys[j],
        ) by {
            if j < n {
                assert(fewer.map_values(key)[i] == keys[i]);
                assert(fewer.map_values(key)[j] == keys[j]);
            } else {
                assert(id_before(key(all[i]), last));
            }
        }
        assert forall|k: int| 0 <= k < all.len() implies ids.contains(key(#[trigger] all[k])) by {
            if k == n {
                assert(ids[ids.len() - 1] == last);
            } else {
                assert(ids.contains(key(all[k])));
            }
        }
    }
}

/// Every list of the effects is in the order of the ids.
pub proof fn law_lists_are_in_order(effects: TransactionEffects, inner: InnerTemporaryStore)
    requires
        inner.written@.dom().finite(),
        inner.deleted@.dom().finite(),
        forall|id: ObjectID| #[trigger]
            inner.written@.contains_key(id) ==> inner.written@[id].0.0 == id,
        lists_changes(effects, inner),
    ensures
        is_ascending(effects.created@.map_values(|e: (ObjectRef, Owner)| e.0.0)),
        is_ascending(effects.mutated@.map_values(|e: (ObjectRef, Owner)| e.0.0)),
        is_ascending(effects.unwrapped@.map_values(|e: (ObjectRef, Owner)| e.0.0)),
        is_ascending(effects.deleted@.map_values(|r: ObjectRef| r.0)),
        is_ascending(effects.unwrapped_then_deleted@.map_values(|r: ObjectRef| r.0)),
        is_ascending(effects.wrapped@.map_values(|r: ObjectRef| r.0)),
{
    let of_entry = |e: (ObjectRef, Owner)| e.0.0;
    let of_ref = |r: ObjectRef| r.0;
    let written = ascending(inner.written@.dom());
    let deleted = ascending(inner.deleted@.dom());
    lemma_ascending(inner.written@.dom());
    lemma_ascending(inner.deleted@.dom());
    assert forall|i: int| 0 <= i < written.len() implies inner.written@[#[trigger] written[i]].0.0
        == written[i] by {
        assert(inner.written@.dom().contains(written[i]));
        assert(inner.written@.contains_key(written[i]));
    }
    lemma_keys_in_order(written, written_as(inner, WriteKind::Create), of_entry);
    lemma_keys_in_order(written, written_as(inner, WriteKind::Mutate), of_entry);
    lemma_keys_in_order(written, written_as(inner, WriteKind::Unwrap), of_entry);
    let gone = ObjectDigest::spec_deleted();
    lemma_keys_in_order(deleted, deleted_as(inner, DeleteKind::Normal, gone), of_ref);
    lemma_keys_in_order(deleted, deleted_as(inner, DeleteKind::UnwrapThenDelete, gone), of_ref);
    lemma_keys_in_order(
        deleted,
        deleted_as(inner, DeleteKind::Wrap, ObjectDigest::spec_wrapped()),
        of_ref,
    );
}

/// The versions before the transaction are listed in the order of the ids, those of what was changed
/// before those of what was deleted.
pub proof fn law_modified_versions_are_in_order(s: StoreView, i: int, j: int)
    requires
        s.written.dom().finite(),
        s.deleted.dom().finite(),
        0 <= i < j < s.modified_at_versions().len(),
    ensures
        ({
            let (a, b) = (s.modified_at_versions()[i].0, s.modified_at_versions()[j].0);
            id_before(a, b) || (s.written.contains_key(a) && s.deleted.contains_key(b))
        }),
{
    let pick = s.modified_version();
    let key = |e: (ObjectID, SequenceNumber)| e.0;
    let ids = ascending(s.written.dom());
    let changed = ids.filter_map(pick);
    let gone = ascending(s.deleted.dom());
    let all = s.modified_at_versions();
    let n = changed.len() as int;
    lemma_ascending(s.written.dom());
    lemma_ascending(s.deleted.dom());
    lemma_keys_in_order(ids, pick, key);
    if j < n {
        assert(changed.map_values(key)[i] == all[i].0);
        assert(changed.map_values(key)[j] == all[j].0);
    } else if i >= n {
        assert(all[i].0 == gone[i - n]);
        assert(all[j].0 == gone[j - n]);
    } else {
        assert(all[i] == changed[i]);
        assert(ids.contains(key(changed[i])));
        assert(ids.to_set().contains(all[i].0));
        assert(all[j].0 == gone[j - n]);
        assert(s.deleted.dom().contains(gone[j - n]));
    }
}

/// The gas object of the effects is the gas coin as it was written, with its owner. A transaction
/// that has none names what it was given, as owned by the address of zeros.
pub proof fn law_gas_object_is_the_written_coin(inner: InnerTemporaryStore, gas: ObjectRef)
    ensures
        gas.0 == (0u128, 0u128) ==> gas_object_of(inner, gas) == (
            gas,
            Owner::AddressOwner(SuiAddress { high: 0, low: 0 }),
        ),
        gas.0 != (0u128, 0u128) ==> gas_object_of(inner, gas).0 == inner.written@[gas.0].0
            && gas_object_of(inner, gas).1 == inner.written@[gas.0].1.owner,
{
}

/// A store is ready to be committed just if no object was both written and deleted, every input that
/// may be changed was one or the other, and every written object names the transaction. The first
/// of these that fails is the fault.
pub proof fn law_fault_is_what_is_wrong(s: StoreView)
    ensures
        ({
            let overlap = exists|id: ObjectID| #[trigger]
                s.written.contains_key(id) && s.deleted.contains_key(id);
            let untouched = exists|i: int|
                #![trigger s.mutable_inputs[i]]
                0 <= i < s.mutable_inputs.len() && !s.written.contains_key(s.mutable_inputs[i].0)
                    && !s.deleted.contains_key(s.mutable_inputs[i].0);
            let unsigned = exists|id: ObjectID| #[trigger]
                s.written.contains_key(id) && s.written[id].0.previous_transaction != s.tx_digest;
            &&& s.fault() == Some(StoreFault::WrittenAndDeleted) <==> overlap
            &&& s.fault() == Some(StoreFault::MutableInputUntouched) <==> !overlap && untouched
            &&& s.fault() == Some(StoreFault::PreviousTransactionNotSet) <==> !overlap
                && !untouched && unsigned
            &&& s.fault() is None <==> !overlap && !untouched && !unsigned
        }),
{
}

/// The bound on the size of effects starts at 2210 bytes, and grows by 128 bytes with every written
/// object, by 80 with every input that may be changed and every deleted object, and by 40 with every
/// dependency.
pub proof fn law_effects_size_grows_with_what_is_listed(
    writes: nat,
    mutables: nat,
    deletes: nat,
    deps: nat,
)
    ensures
        effects_size(0, 0, 0, 0) == 2210,
        effects_size(writes + 1, mutables, deletes, deps) == effects_size(
            writes,
            mutables,
            deletes,
            deps,
        ) + 128,
        effects_size(writes, mutables + 1, deletes, deps) == effects_size(
            writes,
            mutables,
            deletes,
            deps,
        ) + 80,
        effects_size(writes, mutables, deletes + 1, deps) == effects_size(
            writes,
            mutables,
            deletes,
            deps,
        ) + 80,
        effects_size(writes, mutables, deletes, deps + 1) == effects_size(
            writes,
            mutables,
            deletes,
            deps,
        ) + 40,
{
}

} // verus!

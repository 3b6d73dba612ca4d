use crate::base_types::{ObjectID, ObjectRef, SuiAddress};
use crate::error::{SuiError, SuiResult};
use crate::inner::InnerTemporaryStore;
use crate::move_types::ModuleId;
use crate::object::{
    deserialized, module_bytes, DataView, MovePackage, Object, ObjectView, Owner,
    SerializedModule,
};
use crate::order::{ascending, id_before, is_ascending, lemma_ascending};
use crate::publish::first_immutable;
use crate::storage::{BackingPackageStore, ChildObjectResolver, ObjectStore, ParentSync, WriteKind};
use crate::system_state::{system_state_in, SuiSystemState};
use crate::temporary_store::model::StoreView;
use crate::temporary_store::TemporaryStore;
use std::collections::BTreeMap;
use vstd::prelude::*;

verus! {

/// Looking a module up by its name gives the bytes of a module that has exactly this name, and of
/// the first one; and nothing just if no module has it.
pub proof fn law_module_has_the_name_asked_for(modules: Seq<SerializedModule>, name: Seq<u8>)
    ensures
        module_bytes(modules, name) is None <==> forall|i: int|
            0 <= i < modules.len() ==> (#[trigger] modules[i]).name@ != name,
        module_bytes(modules, name) matches Some(bytes) ==> exists|i: int|
            #![trigger modules[i]]
            0 <= i < modules.len() && modules[i].name@ == name && modules[i].bytes@ == bytes && (
            forall|j: int| 0 <= j < i ==> (#[trigger] modules[j]).name@ != name),
    decreases modules.len(),
{
    if modules.len() > 0 {
        let rest = modules.drop_first();
        law_module_has_the_name_asked_for(rest, name);
        assert forall|i: int| 0 <= i < rest.len() implies #[trigger] rest[i] == modules[i + 1] by {
        }
        if modules[0].name@ == name {
            assert(module_bytes(modules, name) == Some(modules[0].bytes@));
        } else {
            assert(module_bytes(modules, name) == module_bytes(rest, name));
            if let Some(bytes) = module_bytes(rest, name) {
                let i = choose|i: int|
                    #![trigger rest[i]]
                    0 <= i < rest.len() && rest[i].name@ == name && rest[i].bytes@ == bytes && (
                    forall|j: int| 0 <= j < i ==> (#[trigger] rest[j]).name@ != name);
                assert(modules[i + 1] == rest[i]);
                assert forall|j: int| 0 <= j < i + 1 implies (#[trigger] modules[j]).name@
                    != name by {
                    if j > 0 {
                        assert(modules[j] == rest[j - 1]);
                    }
                }
            } else {
                assert forall|i: int| 0 <= i < modules.len() implies (#[trigger] modules[i]).name@
                    != name by {
                    if i > 0 {
                        assert(modules[i] == rest[i - 1]);
                    }
                }
            }
        }
    }
}

/// A deserialized module comes from the bytes of a module that has exactly the name asked for, and
/// from the version asked for. It is an error just if no module has the name, or the bytes were
/// refused.
pub proof fn law_deserialized_module_has_the_name_asked_for<
    M,
    F: Fn(&Vec<u8>, u32) -> Option<M>,
>(deserialize: F, package: MovePackage, name: Seq<u8>, version: u32, result: SuiResult<M>)
    requires
        deserialized(deserialize, package, name, version, result),
    ensures
        result matches Ok(module) ==> exists|i: int, code: &Vec<u8>|
            #![trigger package.modules@[i], code@]
            0 <= i < package.modules@.len() && package.modules@[i].name@ == name && code@
                == package.modules@[i].bytes@ && call_ensures(
                deserialize,
                (code, version),
                Some(module),
            ),
        result matches Err(error) ==> {
            ||| error == SuiError::ModuleNotFound && forall|i: int|
                0 <= i < package.modules@.len() ==> (#[trigger] package.modules@[i]).name@ != name
            ||| error == SuiError::ModuleDeserializationFailure && exists|
                i: int,
                code: &Vec<u8>,
            |
                #![trigger package.modules@[i], code@]
                0 <= i < package.modules@.len() && package.modules@[i].name@ == name && code@
                    == package.modules@[i].bytes@ && call_ensures(
                    deserialize,
                    (code, version),
                    None,
                )
        },
{
    let modules = package.modules@;
    law_module_has_the_name_asked_for(modules, name);
    if let Some(bytes) = module_bytes(modules, name) {
        let i = choose|i: int|
            #![trigger modules[i]]
            0 <= i < modules.len() && modules[i].name@ == name && modules[i].bytes@ == bytes && (
            forall|j: int| 0 <= j < i ==> (#[trigger] modules[j]).name@ != name);
        let outcome = match result {
            Ok(module) => Some(module),
            Err(_) => None,
        };
        let code = choose|code: &Vec<u8>|
            code@ == bytes && call_ensures(deserialize, (code, version), outcome);
        assert(package.modules@[i].bytes@ == code@);
    }
}

/// The object that a transaction reads is the one that it wrote last, or else its input.
pub proof fn law_reads_prefer_what_was_written(s: StoreView, id: ObjectID)
    ensures
        s.written.contains_key(id) ==> s.read_object(id) == Some(s.written[id].0),
        !s.written.contains_key(id) && s.input_objects.contains_key(id) ==> s.read_object(id)
            == Some(s.input_objects[id]),
        !s.written.contains_key(id) && !s.input_objects.contains_key(id) ==> s.read_object(
            id,
        ) is None,
        s.may_read(id) <==> !s.deleted.contains_key(id),
{
}

/// What there is under `id`: what was written, or else an input, or else what the backing store has.
pub open spec fn written_or_input_or_below<S: BackingPackageStore>(
    s: StoreView,
    backing: S,
    id: ObjectID,
) -> SuiResult<Option<ObjectView>> {
    if s.written.contains_key(id) {
        Ok(Some(s.written[id].0))
    } else if s.input_objects.contains_key(id) {
        Ok(Some(s.input_objects[id]))
    } else {
        backing.package_at(id)
    }
}

/// Looking a module up gives the bytes of a module with its name in the package at its address: as
/// it was written, or was an input, or else is in the backing store. An object that is no package
/// is an error, and where there is no object, or no such module, there are no bytes.
pub proof fn law_module_comes_from_its_package<S: BackingPackageStore>(
    s: StoreView,
    backing: S,
    module_id: ModuleId,
)
    ensures
        ({
            let id = module_id.address;
            let found = s.module_seen(backing, module_id);
            match written_or_input_or_below(s, backing, id) {
                Err(error) => found == Err::<Option<Seq<u8>>, SuiError>(error),
                Ok(None) => found == Ok::<Option<Seq<u8>>, SuiError>(None),
                Ok(Some(object)) => match object.data {
                    DataView::Move(_) => found == Err::<Option<Seq<u8>>, SuiError>(
                        SuiError::BadObjectType,
                    ),
                    DataView::Package(p) => {
                        &&& found is Ok
                        &&& found->Ok_0 is None <==> forall|i: int|
                            0 <= i < p.modules@.len() ==> (#[trigger] p.modules@[i]).name@
                                != module_id.name@
                        &&& found->Ok_0 matches Some(bytes) ==> exists|i: int|
                            #![trigger p.modules@[i]]
                            0 <= i < p.modules@.len() && p.modules@[i].name@ == module_id.name@
                                && p.modules@[i].bytes@ == bytes
                    },
                },
            }
        }),
{
    let id = module_id.address;
    if let Ok(Some(object)) = s.package_seen(backing, id) {
        if let DataView::Package(p) = object.data {
            law_module_has_the_name_asked_for(p.modules@, module_id.name@);
        }
    }
}

/// A child object is the one that the transaction wrote, or else the one of the backing store. The
/// backing store alone knows packages and the last versions of objects.
pub proof fn law_lookups_below<S: ChildObjectResolver + BackingPackageStore + ParentSync>(
    store: TemporaryStore<S>,
    parent: ObjectID,
    id: ObjectID,
)
    ensures
        store@.written.contains_key(id) ==> store.child_at(parent, id) == Ok::<
            Option<ObjectView>,
            SuiError,
        >(Some(store@.written[id].0)),
        !store@.written.contains_key(id) ==> store.child_at(parent, id)
            == store.backing().child_at(parent, id),
        !store@.deleted.contains_key(id) && store@.written.contains_key(id)
            ==> store.child_readable(id),
        !store@.deleted.contains_key(id) && store.backing().child_readable(id)
            ==> store.child_readable(id),
        store.package_at(id) == store.backing().package_at(id),
        store.parent_entry(id) == store.backing().parent_entry(id),
{
}

/// What a transaction wrote is a store in which just that is found.
pub proof fn law_written_objects_are_found(
    written: BTreeMap<ObjectID, (ObjectRef, Object, WriteKind)>,
    id: ObjectID,
)
    ensures
        written@.contains_key(id) ==> written.object_at(id) == Ok::<Option<ObjectView>, SuiError>(
            Some(written@[id].1@),
        ),
        !written@.contains_key(id) ==> written.object_at(id) == Ok::<Option<ObjectView>, SuiError>(
            None,
        ),
{
}

/// The package in which a module of a finished transaction is looked for is the object at the
/// module's address, if the transaction wrote it and it is a package.
pub proof fn law_written_package_is_at_the_address(inner: InnerTemporaryStore, module_id: ModuleId)
    ensures
        inner.written_package(module_id) matches Some(package)
            ==> inner.written@.contains_key(module_id.address)
            && inner.written@[module_id.address].1@.data == DataView::Package(package),
        inner.written_package(module_id) is None <==> !(inner.written@.contains_key(
            module_id.address,
        ) && inner.written@[module_id.address].1@.data is Package),
{
}

proof fn lemma_picked<B>(ids: Seq<ObjectID>, pick: spec_fn(ObjectID) -> Option<B>, b: B)
    ensures
        ids.filter_map(pick).contains(b) <==> exists|i: int|
            0 <= i < ids.len() && pick(#[trigger] ids[i]) == Some(b),
    decreases ids.len(),
{
    reveal(Seq::filter_map);
    if ids.len() > 0 {
        let rest = ids.drop_last();
        let fewer = rest.filter_map(pick);
        let all = ids.filter_map(pick);
        lemma_picked(rest, pick, b);
        if all.contains(b) {
            let k = choose|k: int| 0 <= k < all.len() && all[k] == b;
            if k < fewer.len() {
                assert(fewer[k] == b);
                assert(fewer.contains(b));
                let i = choose|i: int| 0 <= i < rest.len() && pick(#[trigger] rest[i]) == Some(b);
                assert(pick(ids[i]) == Some(b));
            } else {
                assert(pick(ids[ids.len() - 1]) == Some(b));
            }
        }
        if exists|i: int| 0 <= i < ids.len() && pick(#[trigger] ids[i]) == Some(b) {
            let i = choose|i: int| 0 <= i < ids.len() && pick(#[trigger] ids[i]) == Some(b);
            if i < rest.len() {
                assert(pick(rest[i]) == Some(b));
                let k = choose|k: int| 0 <= k < fewer.len() && fewer[k] == b;
                assert(all[k] == b);
            } else {
                assert(all[fewer.len() as int] == b);
            }
        }
    }
}

/// What is picked from the ids of a set, in ascending order, is just what is picked from its ids.
pub proof fn lemma_picked_from_set<B>(
    ids: Set<ObjectID>,
    pick: spec_fn(ObjectID) -> Option<B>,
    b: B,
)
    requires
        ids.finite(),
    ensures
        ascending(ids).filter_map(pick).contains(b) <==> exists|id: ObjectID|
            ids.contains(id) && #[trigger] pick(id) == Some(b),
{
    let all = ascending(ids);
    lemma_ascending(ids);
    lemma_picked(all, pick, b);
    if all.filter_map(pick).contains(b) {
        let i = choose|i: int| 0 <= i < all.len() && pick(#[trigger] all[i]) == Some(b);
        assert(ids.contains(all[i]));
        assert(pick(all[i]) == Some(b));
    }
    if exists|id: ObjectID| ids.contains(id) && #[trigger] pick(id) == Some(b) {
        let id = choose|id: ObjectID| ids.contains(id) && #[trigger] pick(id) == Some(b);
        assert(all.contains(id));
        let i = choose|i: int| 0 <= i < all.len() && all[i] == id;
        assert(pick(all[i]) == Some(b));
    }
}

/// Ids that are picked one for one, each as it is, stay in ascending order.
pub proof fn lemma_picked_in_order(ids: Seq<ObjectID>, pick: spec_fn(ObjectID) -> Option<ObjectID>)
    requires
        is_ascending(ids),
        forall|i: int|
            0 <= i < ids.len() ==> pick(#[trigger] ids[i]) is None || pick(ids[i]) == Some(ids[i]),
    ensures
        is_ascending(ids.filter_map(pick)),
    decreases ids.len(),
{
    reveal(Seq::filter_map);
    if ids.len() > 0 {
        let rest = ids.drop_last();
        let fewer = rest.filter_map(pick);
        assert forall|i: int| 0 <= i < rest.len() implies pick(#[trigger] rest[i]) is None || pick(
            rest[i],
        ) == Some(rest[i]) by {
            assert(rest[i] == ids[i]);
        }
        assert forall|i: int, j: int| 0 <= i < j < rest.len() implies id_before(
            #[trigger] rest[i],
            #[trigger] rest[j],
        ) by {
            assert(id_before(ids[i], ids[j]));
        }
        lemma_picked_in_order(rest, pick);
        assert forall|i: int| 0 <= i < fewer.len() implies id_before(
            #[trigger] fewer[i],
            ids.last(),
        ) by {
            assert(fewer.contains(fewer[i]));
            lemma_picked(rest, pick, fewer[i]);
            let k = choose|k: int|
                0 <= k < rest.len() && pick(#[trigger] rest[k]) == Some(fewer[i]);
            assert(rest[k] == ids[k]);
            assert(id_before(ids[k], ids[ids.len() - 1]));
        }
        assert(pick(ids[ids.len() - 1]) is None || pick(ids[ids.len() - 1]) == Some(ids.last()));
    }
}

/// The created objects of a finished transaction are just those that it wrote as created, in
/// ascending order.
pub proof fn law_created_are_those_written_as_created(inner: InnerTemporaryStore, id: ObjectID)
    requires
        inner.written@.dom().finite(),
        forall|x: ObjectID| #[trigger]
            inner.written@.contains_key(x) ==> inner.written@[x].0.0 == x,
    ensures
        ({
            let created = ascending(inner.written@.dom()).filter_map(
                |x: ObjectID| inner.created_id(x),
            );
            &&& is_ascending(created)
            &&& created.contains(id) <==> inner.written@.contains_key(id) && inner.written@[id].2
                == WriteKind::Create
        }),
{
    let pick = |x: ObjectID| inner.created_id(x);
    let ids = ascending(inner.written@.dom());
    lemma_ascending(inner.written@.dom());
    lemma_picked_from_set(inner.written@.dom(), pick, id);
    assert forall|i: int| 0 <= i < ids.len() implies pick(#[trigger] ids[i]) is None || pick(ids[i])
        == Some(ids[i]) by {
        assert(inner.written@.dom().contains(ids[i]));
        assert(inner.written@.contains_key(ids[i]));
    }
    lemma_picked_in_order(ids, pick);
    if inner.written@.contains_key(id) && inner.written@[id].2 == WriteKind::Create {
        assert(inner.written@.dom().contains(id) && pick(id) == Some(id));
    }
    if ids.filter_map(pick).contains(id) {
        let x = choose|x: ObjectID|
            inner.written@.dom().contains(x) && #[trigger] pick(x) == Some(id);
        assert(inner.written@.contains_key(x));
    }
}

/// The written objects of an address are just those whose owner is the address, as an account or as
/// an object, in ascending order.
pub proof fn law_owned_are_those_of_the_address(
    inner: InnerTemporaryStore,
    address: SuiAddress,
    id: ObjectID,
)
    requires
        inner.written@.dom().finite(),
        forall|x: ObjectID| #[trigger]
            inner.written@.contains_key(x) ==> inner.written@[x].1@.id() == x,
    ensures
        ({
            let owned = ascending(inner.written@.dom()).filter_map(
                |x: ObjectID| inner.owned_id(x, address),
            );
            &&& is_ascending(owned)
            &&& owned.contains(id) <==> inner.written@.contains_key(id) && (
            inner.written@[id].1@.owner == Owner::AddressOwner(address)
                || inner.written@[id].1@.owner == Owner::ObjectOwner(address))
        }),
{
    let pick = |x: ObjectID| inner.owned_id(x, address);
    let ids = ascending(inner.written@.dom());
    lemma_ascending(inner.written@.dom());
    lemma_picked_from_set(inner.written@.dom(), pick, id);
    assert forall|i: int| 0 <= i < ids.len() implies pick(#[trigger] ids[i]) is None || pick(ids[i])
        == Some(ids[i]) by {
        assert(inner.written@.dom().contains(ids[i]));
        assert(inner.written@.contains_key(ids[i]));
    }
    lemma_picked_in_order(ids, pick);
    if inner.written@.contains_key(id) {
        assert(inner.written@.dom().contains(id));
        assert(pick(id) is Some ==> pick(id) == Some(id));
    }
    if ids.filter_map(pick).contains(id) {
        let x = choose|x: ObjectID|
            inner.written@.dom().contains(x) && #[trigger] pick(x) == Some(id);
        assert(inner.written@.contains_key(x));
    }
}

/// The system state is read out of the object `0x5`: its id is the first 32 bytes and its version
/// is what the eight bytes after them count, the lowest first. Reading succeeds just if that object
/// is there, is a Move object and is 40 bytes long; a failing lookup is handed on.
pub proof fn law_system_state_is_read_from_its_object<S: ObjectStore>(
    store: S,
    result: SuiResult<SuiSystemState>,
)
    requires
        system_state_in(store, result),
    ensures
        match store.object_at((0u128, 5u128)) {
            Err(error) => result == Err::<SuiSystemState, SuiError>(error),
            Ok(Some(object)) if object.data is Move && object.data->Move_0.contents.len() == 40 => {
                let contents = object.data->Move_0.contents;
                &&& result is Ok
                &&& result->Ok_0.id@ == contents.subrange(0, 32)
                &&& result->Ok_0.version == contents[32] + 0x100 * contents[33] + 0x1_0000
                    * contents[34] + 0x100_0000 * contents[35] + 0x1_0000_0000 * contents[36]
                    + 0x100_0000_0000 * contents[37] + 0x1_0000_0000_0000 * contents[38]
                    + 0x100_0000_0000_0000 * contents[39]
            },
            _ => result == Err::<SuiSystemState, SuiError>(SuiError::SuiSystemStateRead),
        },
{
    if let Ok(Some(object)) = store.object_at((0u128, 5u128)) {
        if object.data is Move && object.data->Move_0.contents.len() == 40 {
            let contents = object.data->Move_0.contents;
            crate::coin::law_balance_is_in_the_last_bytes(contents);
            assert(contents.subrange(0, 32) =~= contents.take(32));
        }
    }
}

/// The package that a transaction published is immutable, and nothing that it created before that
/// is. There is none just if nothing is immutable.
pub proof fn law_published_package_is_the_first_immutable(created: Seq<(ObjectRef, Owner)>, n: nat)
    requires
        n <= created.len(),
    ensures
        first_immutable(created, n) matches Some(i) ==> 0 <= i < n && created[i].1
            == Owner::Immutable && forall|j: int|
            0 <= j < i ==> (#[trigger] created[j]).1 != Owner::Immutable,
        first_immutable(created, n) is None <==> forall|j: int|
            0 <= j < n ==> (#[trigger] created[j]).1 != Owner::Immutable,
    decreases n,
{
    if n > 0 {
        law_published_package_is_the_first_immutable(created, (n - 1) as nat);
    }
}

} // verus!

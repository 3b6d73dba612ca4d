use std::collections::BTreeMap;
use std::sync::Arc;
use temporary_store::base_types::{
    ObjectDigest, ObjectID, ObjectRef, SequenceNumber, SuiAddress, TransactionDigest,
    TransactionEventsDigest, NO_OBJECT, SUI_SYSTEM_STATE_OBJECT_ID,
};
use temporary_store::effects::{ExecutionStatus, TransactionEffects};
use temporary_store::error::{SuiError, SuiResult};
use temporary_store::event::{Event, TransactionEvents};
use temporary_store::gas::GasCostSummary;
use temporary_store::inner::InnerTemporaryStore;
use temporary_store::input_objects::{InputObject, InputObjectKind, InputObjects};
use temporary_store::module_resolver::{ResolverError, TemporaryModuleResolver};
use temporary_store::move_types::{ModuleId, MoveObjectType, StructTag, TypeTag};
use temporary_store::object::{
    Data, MoveObject, MovePackage, Object, ObjectView, Owner, SerializedModule,
};
use temporary_store::protocol_config::ProtocolConfig;
use temporary_store::storage::{
    BackingPackageStore, ChildObjectResolver, DeleteKind, GetModule, ObjectChange, ObjectStore,
    ParentSync, Storage, WriteKind,
};
use temporary_store::temporary_store::commit::StoreFault;
use temporary_store::temporary_store::{
    empty_for_testing, with_input_objects_for_testing, TemporaryStore,
};

const SENDER: SuiAddress = SuiAddress { high: 0, low: 100 };
const OTHER: SuiAddress = SuiAddress { high: 0, low: 101 };

/// A backing store that holds packages, child objects and modules.
struct Backing {
    objects: BTreeMap<ObjectID, Object>,
}

impl BackingPackageStore for Backing {
    fn package_at(&self, _package_id: ObjectID) -> SuiResult<Option<ObjectView>> {
        panic!("a model has no code")
    }

    fn get_package_object(&self, package_id: &ObjectID) -> SuiResult<Option<Object>> {
        if *package_id == id(66) {
            return Err(SuiError::Storage { code: 1 });
        }
        Ok(self.objects.get(package_id).cloned())
    }
}

impl ChildObjectResolver for Backing {
    fn child_readable(&self, _child: ObjectID) -> bool {
        panic!("a model has no code")
    }

    fn child_at(&self, _parent: ObjectID, _child: ObjectID) -> SuiResult<Option<ObjectView>> {
        panic!("a model has no code")
    }

    fn read_child_object(&self, parent: &ObjectID, child: &ObjectID) -> SuiResult<Option<Object>> {
        if *parent == id(66) {
            return Err(SuiError::Storage { code: 2 });
        }
        Ok(self.objects.get(child).cloned())
    }
}

impl ParentSync for Backing {
    fn parent_entry(&self, _object_id: ObjectID) -> SuiResult<Option<ObjectRef>> {
        panic!("a model has no code")
    }

    fn get_latest_parent_entry_ref(&self, object_id: ObjectID) -> SuiResult<Option<ObjectRef>> {
        Ok(self.objects.get(&object_id).map(|o| (object_id, o.version(), no_digest())))
    }
}

impl GetModule for Backing {
    type Item = String;

    type Error = SuiError;

    fn get_module_by_id(&self, module_id: &ModuleId) -> Result<Option<String>, SuiError> {
        if module_id.address == id(66) {
            return Err(SuiError::Storage { code: 3 });
        }
        Ok(Some("from below".to_string()))
    }
}

fn id(low: u128) -> ObjectID {
    (0, low)
}

fn version(value: u64) -> SequenceNumber {
    SequenceNumber { value }
}

fn no_digest() -> ObjectDigest {
    ObjectDigest { high: 0, low: 0 }
}

fn tx() -> TransactionDigest {
    TransactionDigest { high: 1, low: 2 }
}

fn reference(low: u128, at: u64) -> ObjectRef {
    (id(low), version(at), no_digest())
}

fn move_object(low: u128, at: u64, type_: MoveObjectType, rest: &[u8]) -> Object {
    let mut contents: Vec<u8> = vec![0; 16];
    contents.extend_from_slice(&low.to_be_bytes());
    contents.extend_from_slice(rest);
    Object {
        data: Data::Move(MoveObject {
            type_: Arc::new(type_),
            has_public_transfer: true,
            version: version(at),
            contents,
        }),
        owner: Owner::AddressOwner(SENDER),
        previous_transaction: TransactionDigest::genesis(),
        storage_rebate: 0,
    }
}

fn coin(low: u128, at: u64, balance: u64) -> Object {
    move_object(low, at, MoveObjectType::GasCoin, &balance.to_le_bytes())
}

fn with_owner(mut object: Object, owner: Owner) -> Object {
    object.owner = owner;
    object
}

fn package(low: u128, at: u64, modules: &[(&str, &[u8])]) -> Object {
    let modules = modules
        .iter()
        .map(|(name, bytes)| SerializedModule {
            name: name.as_bytes().to_vec(),
            bytes: bytes.to_vec(),
        })
        .collect();
    Object {
        data: Data::Package(MovePackage {
            id: id(low),
            version: version(at),
            modules: Arc::new(modules),
        }),
        owner: Owner::Immutable,
        previous_transaction: TransactionDigest::genesis(),
        storage_rebate: 0,
    }
}

fn input(object: Object) -> InputObject {
    let kind = match &object.data {
        Data::Package(p) => InputObjectKind::MovePackage(p.id),
        Data::Move(m) => match object.owner {
            Owner::Shared { initial_shared_version } => InputObjectKind::SharedMoveObject {
                id: m.id(),
                initial_shared_version,
                mutable: true,
            },
            _ => InputObjectKind::ImmOrOwnedMoveObject((m.id(), m.version, no_digest())),
        },
    };
    InputObject { kind, object, digest: no_digest() }
}

fn inputs(objects: Vec<Object>) -> InputObjects {
    InputObjects::new(objects.into_iter().map(input).collect())
}

fn store(objects: Vec<Object>) -> TemporaryStore<Backing> {
    store_on(vec![], objects)
}

fn store_on(backing: Vec<Object>, objects: Vec<Object>) -> TemporaryStore<Backing> {
    let backing = Backing { objects: backing.into_iter().map(|o| (o.id(), o)).collect() };
    TemporaryStore::new(backing, inputs(objects), tx(), &ProtocolConfig::get_for_min_version())
}

fn balance(object: &Object) -> u64 {
    object.as_gas_coin().unwrap().balance
}

fn event(n: u8) -> Event {
    Event {
        package_id: id(2),
        transaction_module: b"m".to_vec(),
        sender: SENDER,
        type_: StructTag {
            address: id(2),
            module: b"m".to_vec(),
            name: b"E".to_vec(),
            type_params: vec![],
        },
        contents: vec![n],
    }
}

fn digest_of(object: &Object) -> ObjectDigest {
    ObjectDigest { high: 9, low: object.version().value as u128 }
}

fn events_digest_of(events: &TransactionEvents) -> TransactionEventsDigest {
    TransactionEventsDigest { high: 8, low: events.data.len() as u128 }
}

fn commit<S>(s: TemporaryStore<S>) -> InnerTemporaryStore {
    s.into_inner(&digest_of)
}

fn effects_of<S>(
    s: TemporaryStore<S>,
    gas: ObjectRef,
) -> (InnerTemporaryStore, TransactionEffects) {
    s.to_effects(
        vec![reference(40, 1)],
        &tx(),
        vec![TransactionDigest { high: 5, low: 6 }],
        GasCostSummary { computation_cost: 1, storage_cost: 2, storage_rebate: 3 },
        ExecutionStatus::Success,
        &[gas],
        12,
        &digest_of,
        &events_digest_of,
    )
}

#[test]
fn a_store_starts_with_its_inputs() {
    let s = store(vec![coin(1, 3, 10), coin(2, 7, 20), package(9, 100, &[])]);
    assert_eq!(s.objects().len(), 3);
    assert_eq!(balance(s.read_object(&id(2)).unwrap()), 20);
    assert!(s.read_object(&id(3)).is_none());
}

#[test]
fn the_version_is_one_above_the_highest_move_input() {
    let given = inputs(vec![coin(1, 3, 10), coin(2, 7, 20), package(9, 100, &[])]);
    assert_eq!(given.lamport_timestamp(), version(8));
    assert_eq!(inputs(vec![]).lamport_timestamp(), version(1));
}

#[test]
fn only_inputs_that_can_change_are_mutable() {
    let frozen = with_owner(coin(3, 1, 0), Owner::Immutable);
    let shared = with_owner(coin(4, 2, 0), Owner::Shared { initial_shared_version: version(1) });
    let mut given = inputs(vec![coin(1, 3, 10), package(9, 1, &[]), frozen, shared]);
    assert_eq!(given.mutable_inputs(), vec![reference(1, 3), reference(4, 2)]);
    if let InputObjectKind::SharedMoveObject { mutable, .. } = &mut given.objects[3].kind {
        *mutable = false;
    }
    assert_eq!(given.mutable_inputs(), vec![reference(1, 3)]);
}

#[test]
fn what_was_written_is_read_back() {
    let mut s = store(vec![coin(1, 3, 10), coin(2, 3, 20)]);
    s.write_object(coin(1, 3, 11), WriteKind::Mutate);
    let read = s.read_object(&id(1)).unwrap();
    assert_eq!(balance(read), 11);
    assert_eq!(read.previous_transaction, tx());
    assert_eq!(balance(s.read_object(&id(2)).unwrap()), 20);
    s.write_object(coin(1, 3, 12), WriteKind::Mutate);
    assert_eq!(balance(s.read_object(&id(1)).unwrap()), 12);
}

#[test]
fn dropped_writes_are_gone() {
    let mut s = store(vec![coin(1, 3, 10), coin(2, 3, 20)]);
    s.write_object(coin(1, 3, 11), WriteKind::Mutate);
    s.delete_object(&id(2), version(3), DeleteKind::Normal);
    s.log_event(event(1));
    s.drop_writes();
    assert_eq!(balance(s.read_object(&id(1)).unwrap()), 10);
    assert_eq!(balance(s.read_object(&id(2)).unwrap()), 20);
    s.write_object(coin(1, 3, 10), WriteKind::Mutate);
    s.write_object(coin(2, 3, 20), WriteKind::Mutate);
    assert!(commit(s).events.data.is_empty());
}

#[test]
fn the_storage_interface_does_the_same() {
    let mut s = store(vec![coin(1, 3, 10)]);
    let mut changes = BTreeMap::new();
    changes.insert(id(1), ObjectChange::Write(coin(1, 3, 5), WriteKind::Mutate));
    Storage::apply_object_changes(&mut s, changes);
    assert_eq!(balance(Storage::read_object(&s, &id(1)).unwrap()), 5);
    Storage::log_event(&mut s, event(1));
    Storage::reset(&mut s);
    assert_eq!(balance(Storage::read_object(&s, &id(1)).unwrap()), 10);
}

#[test]
fn changes_are_applied_to_the_objects_they_name() {
    let mut s = store(vec![coin(1, 3, 10), coin(2, 3, 20), coin(3, 3, 30)]);
    let mut changes = BTreeMap::new();
    changes.insert(id(1), ObjectChange::Write(coin(1, 3, 5), WriteKind::Mutate));
    changes.insert(id(2), ObjectChange::Delete(version(3), DeleteKind::Wrap));
    s.apply_object_changes(changes);
    assert_eq!(balance(s.read_object(&id(1)).unwrap()), 5);
    assert_eq!(balance(s.read_object(&id(3)).unwrap()), 30);
    assert_eq!(s.check_invariants(), Err(StoreFault::MutableInputUntouched));
    s.write_object(coin(3, 3, 30), WriteKind::Mutate);
    assert_eq!(s.check_invariants(), Ok(()));
    let inner = commit(s);
    assert_eq!(inner.deleted[&id(2)], (version(4), DeleteKind::Wrap));
    assert_eq!(inner.written[&id(1)].2, WriteKind::Mutate);
}

#[test]
fn an_object_both_written_and_deleted_is_a_fault() {
    let mut s = store(vec![]);
    s.write_object(coin(1, 0, 5), WriteKind::Create);
    s.delete_object(&id(1), version(0), DeleteKind::Normal);
    assert_eq!(s.check_invariants(), Err(StoreFault::WrittenAndDeleted));
}

#[test]
fn commit_sets_versions_and_references() {
    let mut s = store(vec![coin(1, 3, 10), coin(2, 7, 20)]);
    s.write_object(coin(1, 3, 11), WriteKind::Mutate);
    s.delete_object(&id(2), version(7), DeleteKind::Normal);
    s.write_object(coin(4, 0, 9), WriteKind::Create);
    s.write_object(package(2000, 5, &[]), WriteKind::Create);
    s.write_object(package(3, 5, &[]), WriteKind::Mutate);
    s.log_event(event(7));
    let inner = commit(s);
    assert_eq!(inner.written[&id(1)].1.version(), version(8));
    assert_eq!(inner.written[&id(1)].0, (id(1), version(8), ObjectDigest { high: 9, low: 8 }));
    assert_eq!(inner.written[&id(4)].1.version(), version(8));
    assert_eq!(inner.written[&id(2000)].1.version(), version(5));
    assert_eq!(inner.written[&id(3)].1.version(), version(6));
    assert_eq!(inner.deleted[&id(2)], (version(8), DeleteKind::Normal));
    assert_eq!(inner.events.data, vec![event(7)]);
    assert_eq!(inner.max_binary_format_version, 6);
    assert_eq!(inner.mutable_inputs, vec![reference(1, 3), reference(2, 7)]);
    assert_eq!(inner.objects.len(), 2);
    assert_eq!(balance(inner.get_written_object(&id(1)).unwrap()), 11);
    assert!(inner.get_written_object(&id(2)).is_none());
}

#[test]
fn a_created_shared_object_records_its_first_version() {
    let mut s = store(vec![coin(2, 7, 20)]);
    let shared = Owner::Shared { initial_shared_version: version(0) };
    s.write_object(with_owner(coin(4, 0, 9), shared), WriteKind::Create);
    s.write_object(coin(2, 7, 20), WriteKind::Mutate);
    let inner = commit(s);
    assert_eq!(
        inner.written[&id(4)].1.owner,
        Owner::Shared { initial_shared_version: version(8) }
    );
}

#[test]
fn a_shared_object_that_existed_keeps_its_first_version() {
    let shared = Owner::Shared { initial_shared_version: version(1) };
    let mut s = store(vec![with_owner(coin(4, 3, 9), shared)]);
    s.write_object(with_owner(coin(4, 3, 9), shared), WriteKind::Mutate);
    let inner = commit(s);
    assert_eq!(inner.written[&id(4)].1.owner, shared);
}

#[test]
fn a_mock_transaction_writes_the_highest_version() {
    let backing = Backing { objects: BTreeMap::new() };
    let mut s = TemporaryStore::new_for_mock_transaction(
        backing,
        inputs(vec![coin(1, 3, 10)]),
        tx(),
        &ProtocolConfig::get_for_min_version(),
    );
    s.write_object(coin(1, 3, 10), WriteKind::Mutate);
    assert_eq!(commit(s).written[&id(1)].0 .1, version(0x7fff_ffff_ffff_ffff));
}

#[test]
fn effects_list_every_change_once() {
    let mut s = store(vec![coin(1, 3, 10), coin(2, 7, 20), coin(3, 5, 1)]);
    s.write_object(coin(1, 3, 11), WriteKind::Mutate);
    s.delete_object(&id(2), version(7), DeleteKind::Normal);
    s.delete_object(&id(3), version(5), DeleteKind::Wrap);
    s.delete_object(&id(6), version(2), DeleteKind::UnwrapThenDelete);
    s.write_object(coin(4, 0, 9), WriteKind::Create);
    s.write_object(with_owner(coin(5, 2, 9), Owner::AddressOwner(OTHER)), WriteKind::Unwrap);
    s.log_event(event(7));
    let (inner, effects) = effects_of(s, reference(1, 3));
    let entry = |low: u128, owner: SuiAddress| {
        ((id(low), version(8), ObjectDigest { high: 9, low: 8 }), Owner::AddressOwner(owner))
    };
    assert_eq!(effects.mutated, vec![entry(1, SENDER)]);
    assert_eq!(effects.created, vec![entry(4, SENDER)]);
    assert_eq!(effects.unwrapped, vec![entry(5, OTHER)]);
    let gone = ObjectDigest::deleted();
    assert_eq!(effects.deleted, vec![(id(2), version(8), gone)]);
    assert_eq!(effects.unwrapped_then_deleted, vec![(id(6), version(8), gone)]);
    assert_eq!(effects.wrapped, vec![(id(3), version(8), ObjectDigest::wrapped())]);
    assert_eq!(
        effects.modified_at_versions,
        vec![(id(1), version(3)), (id(2), version(7)), (id(3), version(5)), (id(6), version(2))]
    );
    assert_eq!(effects.gas_object, entry(1, SENDER));
    assert_eq!(effects.events_digest, Some(TransactionEventsDigest { high: 8, low: 1 }));
    assert_eq!(effects.executed_epoch, 12);
    assert_eq!(effects.status, ExecutionStatus::Success);
    assert_eq!(effects.protocol_version, 1);
    assert_eq!(effects.shared_objects, vec![reference(40, 1)]);
    assert_eq!(effects.transaction_digest, tx());
    assert_eq!(effects.dependencies, vec![TransactionDigest { high: 5, low: 6 }]);
    assert_eq!(effects.gas_used.storage_cost, 2);
    assert_eq!(inner.created(), vec![id(4)]);
    assert_eq!(inner.get_written_objects_owned_by(&SENDER), vec![id(1), id(4)]);
    assert_eq!(inner.get_written_objects_owned_by(&OTHER), vec![id(5)]);
}

#[test]
fn without_a_gas_object_the_effects_name_the_one_given() {
    let given = (NO_OBJECT, version(0), no_digest());
    let (_, effects) = effects_of(store(vec![]), given);
    assert_eq!(
        effects.gas_object,
        (given, Owner::AddressOwner(SuiAddress { high: 0, low: 0 }))
    );
    assert_eq!(effects.events_digest, None);
}

#[test]
fn digests_of_objects_that_are_gone() {
    assert_eq!(ObjectDigest::deleted(), ObjectDigest { high: 0x63 * ONES, low: 0x63 * ONES });
    assert_eq!(ObjectDigest::wrapped(), ObjectDigest { high: 0x58 * ONES, low: 0x58 * ONES });
}

const ONES: u128 = 0x0101_0101_0101_0101_0101_0101_0101_0101;

#[test]
fn the_size_of_effects_is_estimated() {
    let mut s = store(vec![coin(1, 3, 10), coin(2, 7, 20)]);
    let fixed = 120 + 10 + 40 + 40 + 1000 + 1000;
    assert_eq!(s.estimate_effects_size_upperbound(), fixed + 80 * 2 + 40 * 2);
    s.write_object(coin(1, 3, 11), WriteKind::Mutate);
    s.delete_object(&id(2), version(7), DeleteKind::Normal);
    assert_eq!(s.estimate_effects_size_upperbound(), fixed + 128 + 80 * 2 + 80 + 40 * 2);
}

#[test]
fn child_objects_are_read_as_they_were_written() {
    let mut s = store_on(vec![coin(7, 3, 70)], vec![]);
    assert_eq!(balance(&s.read_child_object(&id(1), &id(7)).unwrap().unwrap()), 70);
    assert!(s.read_child_object(&id(1), &id(8)).unwrap().is_none());
    assert_eq!(
        s.read_child_object(&id(66), &id(7)).map(|_| ()),
        Err(SuiError::Storage { code: 2 })
    );
    s.write_object(coin(7, 3, 71), WriteKind::Mutate);
    assert_eq!(balance(&s.read_child_object(&id(66), &id(7)).unwrap().unwrap()), 71);
}

#[test]
fn packages_and_last_versions_come_from_below() {
    let s = store_on(vec![package(20, 4, &[])], vec![package(21, 1, &[])]);
    assert_eq!(s.get_package_object(&id(20)).unwrap().unwrap().version(), version(4));
    assert!(s.get_package_object(&id(21)).unwrap().is_none());
    assert_eq!(s.get_latest_parent_entry_ref(id(20)), Ok(Some(reference(20, 4))));
    assert_eq!(s.get_latest_parent_entry_ref(id(21)), Ok(None));
}

fn module(package: u128, name: &str) -> ModuleId {
    ModuleId { address: id(package), name: name.as_bytes().to_vec() }
}

#[test]
fn modules_are_found_in_packages() {
    let s = store_on(
        vec![package(20, 1, &[("a", &[1, 2]), ("b", &[3])])],
        vec![package(21, 1, &[("a", &[4])]), coin(22, 1, 0)],
    );
    assert_eq!(s.get_module(&module(20, "b")), Ok(Some(vec![3])));
    assert_eq!(s.get_module(&module(20, "c")), Ok(None));
    assert_eq!(s.get_module(&module(21, "a")), Ok(Some(vec![4])));
    assert_eq!(s.get_module(&module(22, "a")), Err(SuiError::BadObjectType));
    assert_eq!(s.get_module(&module(23, "a")), Ok(None));
    assert_eq!(s.get_module(&module(66, "a")), Err(SuiError::Storage { code: 1 }));
}

fn coin_of(currency: TypeTag) -> StructTag {
    StructTag {
        address: id(2),
        module: b"coin".to_vec(),
        name: b"Coin".to_vec(),
        type_params: vec![currency],
    }
}

fn sui() -> TypeTag {
    TypeTag::Struct(Box::new(StructTag {
        address: id(2),
        module: b"sui".to_vec(),
        name: b"SUI".to_vec(),
        type_params: vec![],
    }))
}

#[test]
fn resources_are_the_contents_of_objects() {
    let mut s = store(vec![coin(1, 3, 258)]);
    let contents = s.get_resource(&id(1), &coin_of(sui())).unwrap().unwrap();
    assert_eq!(contents.len(), 40);
    assert_eq!(&contents[32..34], &[2, 1]);
    assert_eq!(s.get_resource(&id(2), &coin_of(sui())), Ok(None));
    s.write_object(coin(1, 3, 5), WriteKind::Mutate);
    let contents = s.get_resource(&id(1), &coin_of(sui())).unwrap().unwrap();
    assert_eq!(contents[32], 5);
}

#[test]
fn types_of_objects_are_compared() {
    let object = |type_: MoveObjectType| match coin(1, 3, 0).data {
        Data::Move(m) => MoveObject { type_: Arc::new(type_), ..m },
        Data::Package(_) => panic!("a coin is a Move object"),
    };
    assert!(object(MoveObjectType::GasCoin).is_type(&coin_of(sui())));
    assert!(!object(MoveObjectType::GasCoin).is_type(&coin_of(TypeTag::U8)));
    assert!(object(MoveObjectType::Coin(TypeTag::U8)).is_type(&coin_of(TypeTag::U8)));
    assert!(!object(MoveObjectType::Coin(TypeTag::U8)).is_type(&coin_of(TypeTag::U16)));
    assert!(object(MoveObjectType::Other(event(1).type_)).is_type(&event(2).type_));
    assert!(!object(MoveObjectType::StakedSui).is_type(&coin_of(sui())));
}

fn read(bytes: &Vec<u8>, version: u32) -> Option<String> {
    if bytes == &[0xff] {
        return None;
    }
    Some(format!("{:?} at {}", bytes, version))
}

#[test]
fn written_packages_hide_those_below() {
    let mut s = store(vec![]);
    assert_eq!(s.get_module_by_id(&module(20, "a"), &read), Ok(Some("from below".to_string())));
    assert_eq!(
        s.get_module_by_id(&module(66, "a"), &read),
        Err(SuiError::Storage { code: 3 })
    );
    s.write_object(package(20, 1, &[("a", &[1, 2]), ("bad", &[0xff])]), WriteKind::Create);
    assert_eq!(s.get_module_by_id(&module(20, "a"), &read), Ok(Some("[1, 2] at 6".to_string())));
    assert_eq!(s.get_module_by_id(&module(20, "b"), &read), Err(SuiError::ModuleNotFound));
    assert_eq!(
        s.get_module_by_id(&module(20, "bad"), &read),
        Err(SuiError::ModuleDeserializationFailure)
    );
}

#[test]
fn a_resolver_falls_back() {
    let mut s = store(vec![]);
    s.write_object(package(20, 1, &[("a", &[1, 2])]), WriteKind::Create);
    s.write_object(coin(21, 0, 1), WriteKind::Create);
    let inner = commit(s);
    let resolver = TemporaryModuleResolver::new(&inner, Backing { objects: BTreeMap::new() });
    assert_eq!(
        resolver.get_module_by_id(&module(20, "a"), &read),
        Ok(Some("[1, 2] at 6".to_string()))
    );
    assert_eq!(
        resolver.get_module_by_id(&module(20, "b"), &read),
        Err(ResolverError::Package(SuiError::ModuleNotFound))
    );
    assert_eq!(
        resolver.get_module_by_id(&module(21, "a"), &read),
        Ok(Some("from below".to_string()))
    );
    assert_eq!(
        resolver.get_module_by_id(&module(66, "a"), &read),
        Err(ResolverError::Fallback(SuiError::Storage { code: 3 }))
    );
}

#[test]
fn the_system_state_is_read_out_of_what_was_written() {
    let state = |rest: &[u8]| {
        let tag = MoveObjectType::Other(event(1).type_);
        move_object(5, 0, tag, rest)
    };
    let mut s = store(vec![]);
    s.write_object(state(&2u64.to_le_bytes()), WriteKind::Create);
    let found = commit(s).get_sui_system_state_object().unwrap();
    assert_eq!(found.version, 2);
    assert_eq!(found.id[31], 5);
    assert_eq!(found.id[0], 0);
    let missing = commit(store(vec![])).get_sui_system_state_object();
    assert_eq!(missing.map(|_| ()), Err(SuiError::SuiSystemStateRead));
    let mut short = store(vec![]);
    short.write_object(state(&[1, 2, 3]), WriteKind::Create);
    let unreadable = commit(short).get_sui_system_state_object();
    assert_eq!(unreadable.map(|_| ()), Err(SuiError::SuiSystemStateRead));
}

#[test]
fn written_objects_are_a_store_of_objects() {
    let mut s = store(vec![]);
    s.write_object(coin(4, 0, 9), WriteKind::Create);
    let inner = commit(s);
    assert_eq!(balance(&inner.written.get_object(&id(4)).unwrap().unwrap()), 9);
    assert!(inner.written.get_object(&SUI_SYSTEM_STATE_OBJECT_ID).unwrap().is_none());
}

#[test]
fn stores_for_tests_have_no_backing() {
    let mut s = empty_for_testing();
    assert!(s.objects().is_empty());
    s.write_object(coin(4, 0, 9), WriteKind::Create);
    let written = s.read_object(&id(4)).unwrap();
    assert_eq!(written.previous_transaction, TransactionDigest::genesis());
    let inner = commit(s);
    assert_eq!(inner.written[&id(4)].0 .1, version(1));
    let with_inputs = with_input_objects_for_testing(inputs(vec![coin(1, 3, 10)]));
    assert_eq!(with_inputs.objects().len(), 1);
}

#[test]
fn resetting_brings_back_the_start() {
    let gas = [reference(1, 3), reference(2, 7)];
    let mut begun = store(vec![coin(1, 3, 10), coin(2, 7, 20)]);
    begun.smash_gas(&gas).unwrap();
    let mut s = store(vec![coin(1, 3, 10), coin(2, 7, 20)]);
    s.smash_gas(&gas).unwrap();
    s.write_object(coin(4, 0, 9), WriteKind::Create);
    s.log_event(event(3));
    s.drop_writes();
    s.smash_gas(&gas).unwrap();
    let (a, b) = (commit(begun), commit(s));
    assert_eq!(balance(&a.written[&id(1)].1), balance(&b.written[&id(1)].1));
    assert_eq!(a.written.len(), b.written.len());
    assert_eq!(a.deleted, b.deleted);
    assert_eq!(a.events, b.events);
}

#[test]
fn a_written_package_is_seen_before_the_one_below() {
    let mut s = store_on(vec![package(20, 1, &[("a", &[1])])], vec![]);
    assert_eq!(s.get_module(&module(20, "a")), Ok(Some(vec![1])));
    s.write_object(package(20, 1, &[("a", &[2])]), WriteKind::Mutate);
    assert_eq!(s.get_module(&module(20, "a")), Ok(Some(vec![2])));
}

#[test]
fn writes_to_different_objects_can_be_swapped() {
    let mut a = store(vec![coin(1, 3, 10), coin(2, 7, 20)]);
    a.write_object(coin(1, 3, 11), WriteKind::Mutate);
    a.write_object(coin(2, 7, 21), WriteKind::Mutate);
    let mut b = store(vec![coin(1, 3, 10), coin(2, 7, 20)]);
    b.write_object(coin(2, 7, 21), WriteKind::Mutate);
    b.write_object(coin(1, 3, 11), WriteKind::Mutate);
    assert_eq!(commit(a), commit(b));
}

use std::collections::{BTreeMap, BTreeSet};
use std::sync::Arc;
use temporary_store::base_types::{
    ObjectDigest, ObjectID, ObjectRef, SequenceNumber, SuiAddress, TransactionDigest,
};
use temporary_store::error::{SuiError, SuiResult};
use temporary_store::input_objects::{InputObject, InputObjectKind, InputObjects};
use temporary_store::move_types::MoveObjectType;
use temporary_store::object::{Data, MoveObject, MovePackage, Object, ObjectView, Owner};
use temporary_store::protocol_config::ProtocolConfig;
use temporary_store::storage::{DeleteKind, ObjectStore, WriteKind};
use temporary_store::temporary_store::ownership::{OwnershipError, OwnershipViolation};
use temporary_store::temporary_store::TemporaryStore;

const SENDER: SuiAddress = SuiAddress { high: 0, low: 100 };
const STRANGER: SuiAddress = SuiAddress { high: 0, low: 101 };

struct Backing {
    objects: BTreeMap<ObjectID, Object>,
    broken: BTreeSet<ObjectID>,
}

impl ObjectStore for Backing {
    fn object_at(&self, _id: ObjectID) -> SuiResult<Option<ObjectView>> {
        panic!("a model has no code")
    }

    fn get_object(&self, id: &ObjectID) -> SuiResult<Option<Object>> {
        if self.broken.contains(id) {
            return Err(SuiError::Storage { code: 7 });
        }
        Ok(self.objects.get(id).cloned())
    }
}

fn id(low: u128) -> ObjectID {
    (0, low)
}

fn version(value: u64) -> SequenceNumber {
    SequenceNumber { value }
}

fn no_digest() -> ObjectDigest {
    ObjectDigest { high: 0, low: 0 }
}

fn reference(low: u128) -> ObjectRef {
    (id(low), version(3), no_digest())
}

fn address_of(low: u128) -> SuiAddress {
    SuiAddress { high: 0, low }
}

fn coin(low: u128, owner: Owner) -> Object {
    let mut contents: Vec<u8> = vec![0; 16];
    contents.extend_from_slice(&low.to_be_bytes());
    contents.extend_from_slice(&5u64.to_le_bytes());
    Object {
        data: Data::Move(MoveObject {
            type_: Arc::new(MoveObjectType::GasCoin),
            has_public_transfer: true,
            version: version(3),
            contents,
        }),
        owner,
        previous_transaction: TransactionDigest::genesis(),
        storage_rebate: 0,
    }
}

fn package(low: u128) -> Object {
    Object {
        data: Data::Package(MovePackage {
            id: id(low),
            version: version(1),
            modules: Arc::new(Vec::new()),
        }),
        owner: Owner::Immutable,
        previous_transaction: TransactionDigest::genesis(),
        storage_rebate: 0,
    }
}

fn input(object: Object) -> InputObject {
    let kind = match &object.data {
        Data::Package(p) => InputObjectKind::MovePackage(p.id),
        Data::Move(m) => match object.owner {
            Owner::Shared { initial_shared_version } => InputObjectKind::SharedMoveObject {
                id: m.id(),
                initial_shared_version,
                mutable: true,
            },
            _ => InputObjectKind::ImmOrOwnedMoveObject((m.id(), m.version, no_digest())),
        },
    };
    InputObject { kind, object, digest: no_digest() }
}

fn store(inputs: Vec<Object>, backing: Vec<(u128, Object)>) -> TemporaryStore<Backing> {
    store_with_broken(inputs, backing, Vec::new())
}

fn store_with_broken(
    inputs: Vec<Object>,
    backing: Vec<(u128, Object)>,
    broken: Vec<u128>,
) -> TemporaryStore<Backing> {
    let backing = Backing {
        objects: backing.into_iter().map(|(low, object)| (id(low), object)).collect(),
        broken: broken.into_iter().map(id).collect(),
    };
    TemporaryStore::new(
        backing,
        InputObjects::new(inputs.into_iter().map(input).collect()),
        TransactionDigest { high: 1, low: 2 },
        &ProtocolConfig::get_for_min_version(),
    )
}

fn violation(error: OwnershipViolation) -> Result<(), OwnershipError> {
    Err(OwnershipError::Violation(error))
}

fn owned() -> Owner {
    Owner::AddressOwner(SENDER)
}

fn shared() -> Owner {
    Owner::Shared { initial_shared_version: version(1) }
}

#[test]
fn inputs_of_the_sender_and_shared_ones_may_be_changed() {
    let mut s = store(vec![coin(1, owned()), coin(2, shared())], vec![]);
    s.write_object(coin(1, owned()), WriteKind::Mutate);
    s.delete_object(&id(2), version(3), DeleteKind::Normal);
    assert_eq!(s.audit_ownership(&SENDER, &[], false), Ok(()));
    assert_eq!(s.check_ownership_invariants(&SENDER, &[], false), Ok(()));
}

#[test]
fn an_input_of_another_account_is_refused() {
    let s = store(vec![coin(1, Owner::AddressOwner(STRANGER))], vec![]);
    assert_eq!(
        s.audit_ownership(&SENDER, &[], false),
        violation(OwnershipViolation::InputNotOwnedBySender(id(1)))
    );
}

#[test]
fn gas_coins_may_belong_to_a_sponsor() {
    let mut s = store(vec![coin(1, Owner::AddressOwner(STRANGER))], vec![]);
    s.write_object(coin(1, Owner::AddressOwner(STRANGER)), WriteKind::Mutate);
    assert_eq!(s.audit_ownership(&SENDER, &[reference(1)], false), Ok(()));
}

#[test]
fn an_input_that_belongs_to_an_object_is_refused() {
    let s = store(vec![coin(1, Owner::ObjectOwner(address_of(9)))], vec![]);
    assert_eq!(
        s.audit_ownership(&SENDER, &[], false),
        violation(OwnershipViolation::InputOwnedByObject(id(1)))
    );
}

#[test]
fn immutable_inputs_may_be_read() {
    let s = store(vec![package(7), coin(1, Owner::Immutable)], vec![]);
    assert_eq!(s.audit_ownership(&SENDER, &[], false), Ok(()));
}

#[test]
fn created_and_unwrapped_objects_need_no_owner() {
    let mut s = store(vec![], vec![]);
    let mut fresh = coin(4, owned());
    if let Data::Move(m) = &mut fresh.data {
        m.version = version(0);
    }
    s.write_object(fresh, WriteKind::Create);
    s.write_object(coin(5, owned()), WriteKind::Unwrap);
    s.delete_object(&id(6), version(3), DeleteKind::UnwrapThenDelete);
    assert_eq!(s.audit_ownership(&SENDER, &[], false), Ok(()));
}

#[test]
fn a_changed_object_that_did_not_exist_is_refused() {
    let mut s = store(vec![], vec![]);
    s.write_object(coin(4, owned()), WriteKind::Mutate);
    assert_eq!(
        s.audit_ownership(&SENDER, &[], false),
        violation(OwnershipViolation::MutatedObjectMissing(id(4)))
    );
}

#[test]
fn a_changed_object_that_is_no_input_is_refused() {
    let mut s = store(vec![], vec![(4, coin(4, owned()))]);
    s.write_object(coin(4, owned()), WriteKind::Mutate);
    assert_eq!(
        s.audit_ownership(&SENDER, &[], false),
        violation(OwnershipViolation::MutatedObjectNotInput(id(4)))
    );
}

#[test]
fn only_an_epoch_change_may_change_system_packages() {
    let mut s = store(vec![], vec![(2, package(2))]);
    s.write_object(package(2), WriteKind::Mutate);
    assert_eq!(s.audit_ownership(&SENDER, &[], true), Ok(()));
    assert_eq!(
        s.audit_ownership(&SENDER, &[], false),
        violation(OwnershipViolation::ImmutableObjectMutated(id(2)))
    );
    let mut other = store(vec![], vec![(20, package(20))]);
    other.write_object(package(20), WriteKind::Mutate);
    assert_eq!(
        other.audit_ownership(&SENDER, &[], true),
        violation(OwnershipViolation::NotASystemPackage(id(20)))
    );
}

#[test]
fn a_deleted_object_that_did_not_exist_is_refused() {
    let mut s = store(vec![], vec![]);
    s.delete_object(&id(4), version(3), DeleteKind::Normal);
    assert_eq!(
        s.audit_ownership(&SENDER, &[], false),
        violation(OwnershipViolation::DeletedObjectMissing(id(4)))
    );
}

#[test]
fn a_deleted_object_that_is_no_input_is_refused() {
    let mut s = store(vec![], vec![(4, coin(4, shared()))]);
    s.delete_object(&id(4), version(3), DeleteKind::Wrap);
    assert_eq!(
        s.audit_ownership(&SENDER, &[], false),
        violation(OwnershipViolation::DeletedObjectNotInput(id(4)))
    );
}

#[test]
fn an_immutable_object_cannot_be_deleted() {
    let mut s = store(vec![], vec![(4, coin(4, Owner::Immutable))]);
    s.delete_object(&id(4), version(3), DeleteKind::Normal);
    assert_eq!(
        s.audit_ownership(&SENDER, &[], true),
        violation(OwnershipViolation::ImmutableObjectDeleted(id(4)))
    );
}

#[test]
fn a_child_of_a_child_of_an_input_may_be_changed() {
    let mut s = store(
        vec![coin(1, owned())],
        vec![
            (4, coin(4, Owner::ObjectOwner(address_of(1)))),
            (5, coin(5, Owner::ObjectOwner(address_of(4)))),
        ],
    );
    s.write_object(coin(5, Owner::ObjectOwner(address_of(4))), WriteKind::Mutate);
    assert_eq!(s.audit_ownership(&SENDER, &[], false), Ok(()));
}

#[test]
fn a_parent_without_an_object_is_accepted() {
    let mut s = store(vec![], vec![(5, coin(5, Owner::ObjectOwner(address_of(77))))]);
    s.write_object(coin(5, Owner::ObjectOwner(address_of(77))), WriteKind::Mutate);
    assert_eq!(s.audit_ownership(&SENDER, &[], false), Ok(()));
}

#[test]
fn the_root_of_a_child_must_be_an_input() {
    let mut s = store(
        vec![coin(1, owned())],
        vec![
            (4, coin(4, Owner::AddressOwner(STRANGER))),
            (5, coin(5, Owner::ObjectOwner(address_of(4)))),
        ],
    );
    s.write_object(coin(5, Owner::ObjectOwner(address_of(4))), WriteKind::Mutate);
    assert_eq!(
        s.audit_ownership(&SENDER, &[], false),
        violation(OwnershipViolation::UnauthenticatedRoot {
            id: id(4),
            owner: Owner::AddressOwner(STRANGER),
        })
    );
}

#[test]
fn owners_that_go_round_in_a_circle_come_to_an_end() {
    let mut s = store(
        vec![],
        vec![
            (4, coin(4, Owner::ObjectOwner(address_of(5)))),
            (5, coin(5, Owner::ObjectOwner(address_of(4)))),
            (6, coin(6, Owner::ObjectOwner(address_of(6)))),
        ],
    );
    s.write_object(coin(5, Owner::ObjectOwner(address_of(4))), WriteKind::Mutate);
    s.write_object(coin(6, Owner::ObjectOwner(address_of(6))), WriteKind::Mutate);
    assert_eq!(s.audit_ownership(&SENDER, &[], false), Ok(()));
}

#[test]
fn a_failing_lookup_is_handed_on() {
    let mut s = store_with_broken(vec![], vec![], vec![4]);
    s.write_object(coin(4, owned()), WriteKind::Mutate);
    assert_eq!(
        s.check_ownership_invariants(&SENDER, &[], false),
        Err(SuiError::Storage { code: 7 })
    );
    let mut above = store_with_broken(
        vec![],
        vec![(5, coin(5, Owner::ObjectOwner(address_of(4))))],
        vec![4],
    );
    above.delete_object(&id(5), version(3), DeleteKind::Normal);
    assert_eq!(
        above.audit_ownership(&SENDER, &[], false),
        Err(OwnershipError::Store(SuiError::Storage { code: 7 }))
    );
}

#[test]
fn the_first_violation_is_reported() {
    let mut s = store(vec![coin(9, Owner::AddressOwner(STRANGER))], vec![(4, coin(4, owned()))]);
    s.write_object(coin(4, owned()), WriteKind::Mutate);
    assert_eq!(
        s.audit_ownership(&SENDER, &[], false),
        violation(OwnershipViolation::InputNotOwnedBySender(id(9)))
    );
}

#[test]
fn of_several_faulty_roots_the_last_one_is_reported() {
    let mut s = store(
        vec![],
        vec![
            (4, coin(4, owned())),
            (5, coin(5, Owner::ObjectOwner(address_of(4)))),
            (6, coin(6, shared())),
            (7, coin(7, Owner::ObjectOwner(address_of(6)))),
        ],
    );
    s.write_object(coin(5, Owner::ObjectOwner(address_of(4))), WriteKind::Mutate);
    s.write_object(coin(7, Owner::ObjectOwner(address_of(6))), WriteKind::Mutate);
    assert_eq!(
        s.audit_ownership(&SENDER, &[], false),
        violation(OwnershipViolation::UnauthenticatedRoot { id: id(6), owner: shared() })
    );
}

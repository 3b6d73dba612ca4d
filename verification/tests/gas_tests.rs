use std::collections::BTreeMap;
use std::sync::Arc;
use temporary_store::base_types::{
    ObjectDigest, ObjectID, ObjectRef, SequenceNumber, SuiAddress, TransactionDigest,
    SUI_SYSTEM_STATE_OBJECT_ID,
};
use temporary_store::error::{ExecutionError, InvariantViolation, SuiError, SuiResult};
use temporary_store::gas::{
    deduct_gas, ComputationBucket, GasCostSummary, SuiGasStatus,
};
use temporary_store::inner::InnerTemporaryStore;
use temporary_store::input_objects::{InputObject, InputObjectKind, InputObjects};
use temporary_store::move_types::{MoveObjectType, StructTag, TypeTag};
use temporary_store::object::{Data, MoveObject, MovePackage, Object, Owner};
use temporary_store::protocol_config::ProtocolConfig;
use temporary_store::storage::{DeleteKind, WriteKind};
use temporary_store::temporary_store::TemporaryStore;

type Backing = BTreeMap<ObjectID, (ObjectRef, Object, WriteKind)>;

const SENDER: SuiAddress = SuiAddress { high: 0, low: 100 };

fn id(low: u128) -> ObjectID {
    (0, low)
}

fn version(value: u64) -> SequenceNumber {
    SequenceNumber { value }
}

fn no_digest() -> ObjectDigest {
    ObjectDigest { high: 0, low: 0 }
}

fn reference(low: u128) -> ObjectRef {
    (id(low), version(3), no_digest())
}

fn move_object(low: u128, type_: MoveObjectType, rest: &[u8], rebate: u64) -> Object {
    let mut contents: Vec<u8> = vec![0; 16];
    contents.extend_from_slice(&low.to_be_bytes());
    contents.extend_from_slice(rest);
    Object {
        data: Data::Move(MoveObject {
            type_: Arc::new(type_),
            has_public_transfer: true,
            version: version(3),
            contents,
        }),
        owner: Owner::AddressOwner(SENDER),
        previous_transaction: TransactionDigest::genesis(),
        storage_rebate: rebate,
    }
}

fn coin(low: u128, balance: u64, rebate: u64) -> Object {
    move_object(low, MoveObjectType::GasCoin, &balance.to_le_bytes(), rebate)
}

fn fresh_coin(low: u128, balance: u64) -> Object {
    let mut object = coin(low, balance, 0);
    if let Data::Move(m) = &mut object.data {
        m.version = version(0);
    }
    object
}

fn other_struct(name: &str) -> MoveObjectType {
    MoveObjectType::Other(StructTag {
        address: id(2),
        module: b"thing".to_vec(),
        name: name.as_bytes().to_vec(),
        type_params: vec![],
    })
}

fn package(low: u128) -> Object {
    Object {
        data: Data::Package(MovePackage {
            id: id(low),
            version: version(1),
            modules: Arc::new(Vec::new()),
        }),
        owner: Owner::Immutable,
        previous_transaction: TransactionDigest::genesis(),
        storage_rebate: 0,
    }
}

fn input(object: Object) -> InputObject {
    let kind = match &object.data {
        Data::Package(p) => InputObjectKind::MovePackage(p.id),
        Data::Move(m) => InputObjectKind::ImmOrOwnedMoveObject((m.id(), m.version, no_digest())),
    };
    InputObject { kind, object, digest: no_digest() }
}

fn config(gas_model_version: u64) -> ProtocolConfig {
    ProtocolConfig { gas_model_version, ..ProtocolConfig::get_for_min_version() }
}

fn store_on(backing: Vec<Object>, inputs: Vec<Object>, model: u64) -> TemporaryStore<Backing> {
    let mut objects: Backing = BTreeMap::new();
    for object in backing {
        let object_ref = (object.id(), object.version(), no_digest());
        objects.insert(object.id(), (object_ref, object, WriteKind::Create));
    }
    TemporaryStore::new(
        objects,
        InputObjects::new(inputs.into_iter().map(input).collect()),
        TransactionDigest { high: 1, low: 2 },
        &config(model),
    )
}

fn store(inputs: Vec<Object>) -> TemporaryStore<Backing> {
    store_on(vec![], inputs, 1)
}

fn meter(gas_budget: u64, computation_units: u64) -> SuiGasStatus {
    SuiGasStatus {
        charge: true,
        gas_budget,
        gas_price: 2,
        computation_units,
        computation_buckets: vec![],
        storage_gas_price: 10,
        computation_cost: 0,
        storage_cost: 0,
        storage_rebate: 0,
        unmetered_storage_rebate: 0,
    }
}

fn unmetered() -> SuiGasStatus {
    SuiGasStatus { charge: false, ..meter(0, 0) }
}

fn nothing(_: &MoveObject) -> SuiResult<u64> {
    Ok(0)
}

fn commit(s: TemporaryStore<Backing>) -> InnerTemporaryStore {
    s.into_inner(&|_: &Object| no_digest())
}

fn balance_of(inner: &InnerTemporaryStore, low: u128) -> u64 {
    inner.get_written_object(&id(low)).unwrap().as_gas_coin().unwrap().balance
}

#[test]
fn one_coin_is_not_smashed() {
    let mut s = store(vec![coin(1, 10, 0)]);
    assert_eq!(s.smash_gas(&[reference(1)]), Ok(reference(1)));
    assert_eq!(s.read_object(&id(1)).unwrap().as_gas_coin().unwrap().balance, 10);
    assert_eq!(s.read_object(&id(1)).unwrap().previous_transaction, TransactionDigest::genesis());
}

#[test]
fn smashed_coins_end_up_in_the_first() {
    let mut s = store(vec![coin(1, 10, 0), coin(2, 20, 0), coin(3, 30, 0)]);
    let gas = [reference(2), reference(1), reference(3)];
    assert_eq!(s.smash_gas(&gas), Ok(reference(2)));
    let inner = commit(s);
    assert_eq!(balance_of(&inner, 2), 60);
    assert_eq!(inner.deleted.len(), 2);
    assert_eq!(inner.deleted[&id(1)], (version(4), DeleteKind::Normal));
    assert_eq!(inner.deleted[&id(3)], (version(4), DeleteKind::Normal));
}

#[test]
fn only_sui_coins_can_be_smashed() {
    let refused = Err(ExecutionError::InvariantViolation(InvariantViolation::NonGasCoinAsGas));
    let mut with_package = store(vec![package(1), coin(2, 20, 0)]);
    assert_eq!(with_package.smash_gas(&[reference(2), reference(1)]), refused);
    let other = move_object(1, MoveObjectType::Coin(TypeTag::U8), &[0; 8], 0);
    let mut with_other = store(vec![other, coin(2, 20, 0)]);
    assert_eq!(with_other.smash_gas(&[reference(1), reference(2)]), refused);
}

#[test]
fn the_first_faulty_coin_decides() {
    let mut s = store(vec![package(1)]);
    assert_eq!(
        s.smash_gas(&[reference(1), reference(99)]),
        Err(ExecutionError::InvariantViolation(InvariantViolation::NonGasCoinAsGas))
    );
}

#[test]
fn a_coin_that_does_not_decode_cannot_be_smashed() {
    let short = move_object(1, MoveObjectType::GasCoin, &[1, 2, 3], 0);
    let mut s = store(vec![short, coin(2, 20, 0)]);
    let error = s.smash_gas(&[reference(1), reference(2)]).unwrap_err();
    assert_eq!(error, ExecutionError::InvariantViolation(InvariantViolation::GasCoinEncoding));
    assert_eq!(
        InvariantViolation::GasCoinEncoding.message(),
        "Deserializing Gas coin should not fail!"
    );
}

#[test]
fn smashed_balances_must_fit() {
    let mut s = store(vec![coin(1, u64::MAX, 0), coin(2, 1, 0)]);
    assert_eq!(
        s.smash_gas(&[reference(1), reference(2)]),
        Err(ExecutionError::CoinBalanceOverflow)
    );
    assert_eq!(s.read_object(&id(1)).unwrap().as_gas_coin().unwrap().balance, u64::MAX);
    assert_eq!(s.read_object(&id(2)).unwrap().as_gas_coin().unwrap().balance, 1);
}

#[test]
fn a_coin_counts_for_130_bytes() {
    assert_eq!(coin(1, 0, 0).object_size_for_gas_metering(), 130);
    assert_eq!(package(1).object_size_for_gas_metering(), 88);
}

#[test]
fn gas_is_paid_out_of_the_coin() {
    let mut s = store(vec![coin(1, 1_000_000, 100)]);
    let mut gas = meter(10_000, 50);
    let mut result: Result<u8, ExecutionError> = Ok(9);
    s.charge_gas(Some(id(1)), &mut gas, &mut result, &[reference(1)]);
    assert_eq!(result, Ok(9));
    assert_eq!(
        gas.summary(),
        GasCostSummary { computation_cost: 100, storage_cost: 1300, storage_rebate: 100 }
    );
    assert_eq!(s.check_sui_conserved(None, &nothing), Ok(()));
    assert_eq!(s.check_invariants(), Ok(()));
    let inner = commit(s);
    assert_eq!(balance_of(&inner, 1), 1_000_000 - 1400 + 99);
    let written = inner.get_written_object(&id(1)).unwrap();
    assert_eq!(written.storage_rebate, 1300);
    assert_eq!(written.version(), version(4));
    assert_eq!(written.previous_transaction, TransactionDigest { high: 1, low: 2 });
}

#[test]
fn created_and_deleted_objects_count_for_storage() {
    let mut s = store(vec![coin(1, 1_000_000, 100), coin(2, 50, 700)]);
    s.write_object(fresh_coin(8, 50), WriteKind::Create);
    s.delete_object(&id(2), version(3), DeleteKind::Normal);
    let mut gas = meter(10_000, 50);
    let mut result: Result<(), ExecutionError> = Ok(());
    s.charge_gas(Some(id(1)), &mut gas, &mut result, &[reference(1)]);
    assert_eq!(
        gas.summary(),
        GasCostSummary { computation_cost: 100, storage_cost: 2600, storage_rebate: 800 }
    );
    assert_eq!(s.check_sui_conserved(None, &nothing), Ok(()));
    let inner = commit(s);
    assert_eq!(balance_of(&inner, 1), 1_000_000 - 2700 + 792);
    assert_eq!(inner.created(), vec![id(8)]);
}

#[test]
fn untouched_inputs_are_written_as_they_are() {
    let mut s = store(vec![coin(1, 1_000_000, 0), coin(2, 50, 0)]);
    assert!(s.check_invariants().is_err());
    let mut gas = meter(10_000, 50);
    let mut result: Result<(), ExecutionError> = Ok(());
    s.charge_gas(Some(id(1)), &mut gas, &mut result, &[reference(1)]);
    assert_eq!(s.check_invariants(), Ok(()));
    let inner = commit(s);
    assert_eq!(balance_of(&inner, 2), 50);
    assert_eq!(inner.get_written_object(&id(2)).unwrap().version(), version(4));
}

#[test]
fn a_failed_execution_is_dropped_and_still_paid_for() {
    let mut s = store(vec![coin(1, 1_000_000, 0), coin(2, 500, 0)]);
    let gas_refs = [reference(1), reference(2)];
    s.smash_gas(&gas_refs).unwrap();
    s.write_object(fresh_coin(8, 77), WriteKind::Create);
    let mut gas = meter(10_000, 50);
    let mut result: Result<(), ExecutionError> = Err(ExecutionError::MoveAbort { code: 4 });
    s.charge_gas(Some(id(1)), &mut gas, &mut result, &gas_refs);
    assert_eq!(result, Err(ExecutionError::MoveAbort { code: 4 }));
    assert_eq!(s.check_sui_conserved(None, &nothing), Ok(()));
    let inner = commit(s);
    assert!(inner.get_written_object(&id(8)).is_none());
    assert_eq!(balance_of(&inner, 1), 1_000_500 - 1400);
    assert!(inner.deleted.contains_key(&id(2)));
}

#[test]
fn computation_that_uses_up_the_budget_fails() {
    let mut s = store(vec![coin(1, 1_000_000, 0)]);
    s.write_object(fresh_coin(8, 77), WriteKind::Create);
    let mut gas = meter(3_000, 1_500);
    let mut result: Result<(), ExecutionError> = Ok(());
    s.charge_gas(Some(id(1)), &mut gas, &mut result, &[reference(1)]);
    assert_eq!(result, Err(ExecutionError::InsufficientGas));
    assert_eq!(gas.summary().computation_cost, 3_000);
    assert_eq!(gas.summary().gas_used(), 3_000);
    let inner = commit(s);
    assert!(inner.get_written_object(&id(8)).is_none());
}

#[test]
fn storage_over_the_budget_is_dropped() {
    let mut s = store(vec![coin(1, 1_000_000, 0)]);
    s.write_object(fresh_coin(8, 0), WriteKind::Create);
    let mut gas = meter(1_500, 50);
    let mut result: Result<(), ExecutionError> = Ok(());
    s.charge_gas(Some(id(1)), &mut gas, &mut result, &[reference(1)]);
    assert_eq!(result, Err(ExecutionError::InsufficientGas));
    assert_eq!(
        gas.summary(),
        GasCostSummary { computation_cost: 100, storage_cost: 1300, storage_rebate: 0 }
    );
    assert_eq!(s.check_sui_conserved(None, &nothing), Ok(()));
    let inner = commit(s);
    assert!(inner.get_written_object(&id(8)).is_none());
    assert_eq!(balance_of(&inner, 1), 1_000_000 - 1400);
}

#[test]
fn a_budget_below_the_storage_of_the_coin_sets_no_rebate() {
    let mut s = store(vec![coin(1, 1_000_000, 5)]);
    let mut gas = meter(1_000, 50);
    let mut result: Result<(), ExecutionError> = Ok(());
    s.charge_gas(Some(id(1)), &mut gas, &mut result, &[reference(1)]);
    assert_eq!(result, Err(ExecutionError::InsufficientGas));
    assert_eq!(gas.summary().storage_cost, 0);
    let inner = commit(s);
    assert_eq!(inner.get_written_object(&id(1)).unwrap().storage_rebate, 5);
    assert_eq!(balance_of(&inner, 1), 1_000_000 - 100);
}

#[test]
fn a_changed_object_must_have_existed() {
    let mut s = store(vec![coin(1, 1_000_000, 0)]);
    s.write_object(coin(6, 1, 0), WriteKind::Mutate);
    let mut gas = meter(10_000, 50);
    let mut result: Result<(), ExecutionError> = Ok(());
    s.charge_gas(Some(id(1)), &mut gas, &mut result, &[reference(1)]);
    assert_eq!(
        result,
        Err(ExecutionError::InvariantViolation(InvariantViolation::OldObjectMissing))
    );
    assert_eq!(
        InvariantViolation::OldObjectMissing.message(),
        "Looking up storage rebate of mutated object should not fail"
    );
}

#[test]
fn a_changed_object_must_have_had_its_version() {
    let mut newer = coin(6, 1, 0);
    if let Data::Move(m) = &mut newer.data {
        m.version = version(9);
    }
    let mut s = store_on(vec![newer], vec![coin(1, 1_000_000, 0)], 1);
    s.write_object(coin(6, 1, 0), WriteKind::Mutate);
    let mut gas = meter(10_000, 50);
    let mut result: Result<(), ExecutionError> = Ok(());
    s.charge_gas(Some(id(1)), &mut gas, &mut result, &[reference(1)]);
    assert_eq!(
        result,
        Err(ExecutionError::InvariantViolation(InvariantViolation::UnexpectedOldVersion))
    );
}

#[test]
fn rebates_of_dynamic_fields_come_from_the_backing_store() {
    let mut s = store_on(vec![coin(6, 1, 400)], vec![coin(1, 1_000_000, 0)], 1);
    s.write_object(coin(6, 1, 400), WriteKind::Mutate);
    let mut gas = meter(10_000, 50);
    let mut result: Result<(), ExecutionError> = Ok(());
    s.charge_gas(Some(id(1)), &mut gas, &mut result, &[reference(1)]);
    assert_eq!(result, Ok(()));
    assert_eq!(gas.storage_rebate(), 400);
    assert_eq!(gas.storage_gas_units(), 2600);
    assert_eq!(s.check_sui_conserved(None, &nothing), Ok(()));
}

#[test]
fn computation_is_rounded_up_to_a_bucket() {
    let buckets = vec![
        ComputationBucket { max: 100, cost: 100 },
        ComputationBucket { max: 500, cost: 500 },
        ComputationBucket { max: 1000, cost: 900 },
    ];
    for (units, cost) in [(0, 200), (100, 200), (101, 1000), (700, 1800), (5000, 1800)] {
        let mut gas = SuiGasStatus { computation_buckets: buckets.clone(), ..meter(9_000, units) };
        assert_eq!(gas.bucketize_computation(), Ok(()));
        assert_eq!(gas.summary().computation_cost, cost);
    }
    let mut gas = SuiGasStatus { computation_buckets: buckets, ..meter(200, 7) };
    assert_eq!(gas.bucketize_computation(), Err(ExecutionError::InsufficientGas));
    assert_eq!(gas.summary().computation_cost, 200);
}

#[test]
fn storage_that_is_not_covered_is_not_counted() {
    let mut gas = meter(50, 0);
    assert_eq!(gas.charge_storage_mutation(4, 9), Ok(40));
    assert_eq!(gas.charge_storage_mutation(2, 9), Err(ExecutionError::InsufficientGas));
    assert_eq!(gas.storage_gas_units(), 40);
    assert_eq!(gas.storage_rebate(), 9);
    gas.reset_storage_cost_and_rebate();
    assert_eq!(gas.storage_gas_units(), 0);
    assert_eq!(gas.storage_rebate(), 0);
}

#[test]
fn system_transactions_do_not_pay() {
    let mut gas = unmetered();
    assert_eq!(gas.bucketize_computation(), Ok(()));
    assert_eq!(gas.charge_storage_mutation(1_000_000, 9), Ok(0));
    assert_eq!(gas.unmetered_storage_rebate, 9);
    assert_eq!(gas.summary(), GasCostSummary::default());
}

#[test]
fn unpaid_rebates_end_up_in_the_system_state() {
    let state = move_object(5, other_struct("State"), &[0; 8], 60);
    let mut s = store_on(vec![], vec![state, coin(2, 7, 40)], 2);
    let mut gas = unmetered();
    let mut result: Result<(), ExecutionError> = Ok(());
    s.charge_gas(None, &mut gas, &mut result, &[]);
    assert_eq!(gas.unmetered_storage_rebate, 100);
    assert_eq!(
        s.check_sui_conserved(None, &nothing),
        Err(SuiError::SuiNotConserved { input: 107, output: 7 })
    );
    s.conserve_unmetered_storage_rebate(gas.unmetered_storage_rebate);
    assert_eq!(s.read_object(&SUI_SYSTEM_STATE_OBJECT_ID).unwrap().storage_rebate, 100);
    assert_eq!(s.check_sui_conserved(None, &nothing), Ok(()));
}

#[test]
fn the_first_gas_model_leaves_unpaid_rebates_out() {
    let state = move_object(5, other_struct("State"), &[0; 8], 0);
    let mut s = store_on(vec![], vec![state], 1);
    s.conserve_unmetered_storage_rebate(100);
    assert_eq!(s.read_object(&SUI_SYSTEM_STATE_OBJECT_ID).unwrap().storage_rebate, 0);
    let mut none = store_on(vec![], vec![], 2);
    none.conserve_unmetered_storage_rebate(0);
    assert!(none.read_object(&SUI_SYSTEM_STATE_OBJECT_ID).is_none());
}

#[test]
fn minted_sui_is_noticed() {
    let mut s = store(vec![coin(1, 10, 0)]);
    s.write_object(coin(1, 10, 0), WriteKind::Mutate);
    s.write_object(fresh_coin(8, 5), WriteKind::Create);
    assert_eq!(
        s.check_sui_conserved(None, &nothing),
        Err(SuiError::SuiNotConserved { input: 10, output: 15 })
    );
}

#[test]
fn the_end_of_an_epoch_mints_fees_and_burns_rebates() {
    let mut s = store(vec![coin(1, 10, 0)]);
    s.write_object(coin(1, 10, 0), WriteKind::Mutate);
    s.write_object(fresh_coin(8, 5), WriteKind::Create);
    assert_eq!(s.check_sui_conserved(Some((8, 3)), &nothing), Ok(()));
    assert_eq!(
        s.check_sui_conserved(Some((3, 8)), &nothing),
        Err(SuiError::SuiNotConserved { input: 13, output: 23 })
    );
}

#[test]
fn coins_of_other_currencies_hold_no_sui() {
    let mut s = store(vec![]);
    let mut other = move_object(8, MoveObjectType::Coin(TypeTag::U8), &9u64.to_le_bytes(), 0);
    if let Data::Move(m) = &mut other.data {
        m.version = version(0);
    }
    s.write_object(other, WriteKind::Create);
    let broken = |_: &MoveObject| -> SuiResult<u64> { Err(SuiError::ObjectLayout) };
    assert_eq!(s.check_sui_conserved(None, &broken), Ok(()));
}

#[test]
fn other_objects_hold_what_their_layout_says() {
    let object = move_object(3, other_struct("Pool"), &[0; 8], 0);
    let mut s = store(vec![object.clone()]);
    s.delete_object(&id(3), version(3), DeleteKind::Wrap);
    let pool = |_: &MoveObject| -> SuiResult<u64> { Ok(21) };
    assert_eq!(
        s.check_sui_conserved(None, &pool),
        Err(SuiError::SuiNotConserved { input: 21, output: 0 })
    );
    let broken = |_: &MoveObject| -> SuiResult<u64> { Err(SuiError::ObjectLayout) };
    assert_eq!(s.check_sui_conserved(None, &broken), Err(SuiError::ObjectLayout));
    assert_eq!(object.get_total_sui(&pool), Ok(21));
}

#[test]
fn unwrapped_objects_count_only_afterwards() {
    let mut s = store(vec![]);
    s.write_object(coin(8, 5, 0), WriteKind::Unwrap);
    s.delete_object(&id(9), version(3), DeleteKind::UnwrapThenDelete);
    assert_eq!(
        s.check_sui_conserved(None, &nothing),
        Err(SuiError::SuiNotConserved { input: 0, output: 5 })
    );
}

#[test]
fn the_sender_gets_the_rebate_rounded_to_the_nearest() {
    let summary = |storage_rebate: u64| GasCostSummary {
        computation_cost: 3,
        storage_cost: 4,
        storage_rebate,
    };
    assert_eq!(summary(100).sender_rebate(9900), 99);
    assert_eq!(summary(50).sender_rebate(9900), 50);
    assert_eq!(summary(49).sender_rebate(9900), 49);
    assert_eq!(summary(51).sender_rebate(9900), 50);
    assert_eq!(summary(u64::MAX).sender_rebate(10000), u64::MAX);
    assert_eq!(summary(7).sender_rebate(0), 0);
    assert_eq!(summary(100).storage_fund_rebate_inflow(9900), 1);
    assert_eq!(summary(100).gas_used(), 7);
}

#[test]
fn a_coin_pays_and_is_paid() {
    let mut object = coin(1, 100, 6);
    deduct_gas(&mut object, 30, 5);
    assert_eq!(object.as_gas_coin().unwrap().balance, 75);
    assert_eq!(object.id(), id(1));
    assert_eq!(object.storage_rebate, 6);
}

#[test]
fn only_the_transaction_that_pays_moves_what_is_in_no_object() {
    let mut s = store(vec![coin(1, 1_000_000, 1_001)]);
    let mut gas = meter(10_000, 50);
    let mut result: Result<(), ExecutionError> = Ok(());
    s.charge_gas(Some(id(1)), &mut gas, &mut result, &[reference(1)]);
    let summary = gas.summary();
    assert_eq!(summary.sender_rebate(9900) + summary.storage_fund_rebate_inflow(9900), 1_001);
    assert_eq!(summary.storage_fund_rebate_inflow(9900), 10);
    assert_eq!(s.check_sui_conserved(None, &nothing), Ok(()));
}

#[test]
fn no_transaction_costs_more_than_its_budget() {
    for budget in [0, 99, 100, 101, 1_000, 1_399, 1_400, 2_699, 2_700, 10_000] {
        let mut s = store(vec![coin(1, 1_000_000, 0)]);
        s.write_object(fresh_coin(8, 0), WriteKind::Create);
        let mut gas = meter(budget, 50);
        let mut result: Result<(), ExecutionError> = Ok(());
        s.charge_gas(Some(id(1)), &mut gas, &mut result, &[reference(1)]);
        assert!(gas.summary().gas_used() <= budget);
        assert_eq!(result.is_ok(), budget >= 2_700);
        assert_eq!(s.check_invariants(), Ok(()));
    }
}

#[test]
fn the_end_of_an_epoch_conserves_the_rest() {
    let state = move_object(5, other_struct("State"), &[0; 8], 60);
    let mut s = store_on(vec![], vec![state], 2);
    s.write_object(fresh_coin(8, 30), WriteKind::Create);
    let mut gas = unmetered();
    let mut result: Result<(), ExecutionError> = Ok(());
    s.charge_gas(None, &mut gas, &mut result, &[]);
    s.conserve_unmetered_storage_rebate(gas.unmetered_storage_rebate);
    assert_eq!(s.check_sui_conserved(Some((50, 20)), &nothing), Ok(()));
}

use crate::base_types::{ObjectID, ObjectRef};
use crate::error::ExecutionError;
use crate::gas::{bucket_cost, GasCostSummary, SuiGasStatus};
use crate::object::{lemma_with_gas_balance, ObjectView};
use crate::storage::{DeleteKind, ObjectStore, WriteKind};
use crate::temporary_store::charge_laws::{
    is_mutable_input, is_same_meter, law_charging_for_storage_changes_no_object,
    law_price_becomes_the_rebate, touched,
};
use crate::temporary_store::gas_laws::{
    balance_in, balances, is_same_coin, is_sui_coin, law_balance_can_be_set,
    law_coin_holds_its_balance, law_nothing_is_smashed_without_need,
    law_smashing_succeeds_on_coins_that_fit, law_smashing_touches_the_coins_alone,
};
use crate::temporary_store::laws::law_rebate_is_split;
use crate::temporary_store::model::StoreView;
use crate::temporary_store::settle::Settlement;
use crate::temporary_store::smash::lemma_coins_are_inputs;
use vstd::prelude::*;

verus! {

/// The sender's share of a storage rebate: so many hundredths of a percent of it, rounded to the
/// nearest.
pub open spec fn share(rebate: u64, rate: u64) -> int {
    (rebate * rate + 5000) / 10000
}

/// Whether the two stores are of the same transaction: they have the same inputs and settings.
pub open spec fn is_same_transaction(a: StoreView, b: StoreView) -> bool {
    &&& a.tx_digest == b.tx_digest
    &&& a.input_objects == b.input_objects
    &&& a.lamport_timestamp == b.lamport_timestamp
    &&& a.mutable_inputs == b.mutable_inputs
    &&& a.storage_rebate_rate == b.storage_rebate_rate
    &&& a.protocol_config == b.protocol_config
}

/// Whether the computation alone uses up the budget.
pub open spec fn computation_is_too_much(gas: SuiGasStatus) -> bool {
    gas.charge && bucket_cost(gas.computation_buckets@, gas.computation_units) * gas.gas_price
        >= gas.gas_budget
}

/// Paying for gas writes the gas coin: it is the coin that was read, with the cost taken out of its
/// balance and the sender's share of the rebates put in, on record as written by the transaction.
/// The payment is on record, and nothing else of the store changes. Without a gas coin nothing does.
pub proof fn law_payment_changes_the_balance_alone(settled: Settlement, id: ObjectID, other: ObjectID)
    requires
        settled.may_pay(id),
        settled.store.read_object(id) matches Some(coin) ==> coin.id() == id,
    ensures
        ({
            let before = settled.store;
            let coin = touched(before, id).0;
            let after = settled.paid(Some(id));
            let paid = after.written[id].0;
            &&& after.written.contains_key(id)
            &&& after.written[id].1 == WriteKind::Mutate
            &&& is_same_coin(coin, paid)
            &&& paid.storage_rebate == coin.storage_rebate
            &&& paid.previous_transaction == before.tx_digest
            &&& balance_in(paid) == balance_in(coin) - settled.gas.computation_cost
                - settled.gas.storage_cost + share(
                settled.gas.storage_rebate,
                before.storage_rebate_rate,
            )
            &&& other != id ==> (after.written.contains_key(other)
                <==> before.written.contains_key(other)) && after.written[other]
                == before.written[other]
            &&& after.gas_charged == Some(
                (
                    id,
                    GasCostSummary {
                        computation_cost: settled.gas.computation_cost,
                        storage_cost: settled.gas.storage_cost,
                        storage_rebate: settled.gas.storage_rebate,
                    },
                ),
            )
            &&& is_same_transaction(before, after)
            &&& after.deleted == before.deleted
            &&& after.events == before.events
        }),
        settled.paid(None) == settled.store,
{
    let coin = settled.store.read_object(id)->0;
    let summary = settled.gas.spec_summary();
    law_coin_holds_its_balance(coin);
    law_rebate_is_split(summary.storage_rebate, settled.store.storage_rebate_rate);
    let left = crate::gas::balance_after_gas(
        coin,
        summary.spec_gas_used(),
        crate::gas::rebate_for_sender(summary.storage_rebate, settled.store.storage_rebate_rate),
    );
    law_balance_can_be_set(coin, left as u64);
    lemma_with_gas_balance(coin, left as u64);
    assert(settled.paid_gas_object(id).id() == id);
}

/// The error that a transaction ends with, if it ends with one: that of execution; or that it ran
/// out of gas in its computation; or what charging for its storage ran into.
pub open spec fn first_of_errors(
    execution: Option<ExecutionError>,
    gas: SuiGasStatus,
    storage: Option<ExecutionError>,
) -> Option<ExecutionError> {
    match execution {
        Some(error) => Some(error),
        None => if computation_is_too_much(gas) {
            Some(ExecutionError::InsufficientGas)
        } else {
            storage
        },
    }
}

/// A transaction that executes, does not use up its budget, and can pay for its storage, keeps what
/// it did: its events, what it deleted, and every object that it wrote, with its contents and its
/// owner. The gas coin and every input that may be changed are written beside that. The gas coin
/// pays, and stays the coin that it was.
pub proof fn law_successful_execution_is_kept<S: ObjectStore>(
    before: Settlement,
    backing: S,
    gas_object_id: Option<ObjectID>,
    gas: Seq<ObjectRef>,
    id: ObjectID,
)
    requires
        before.store.wf(),
        before.error is None,
        !computation_is_too_much(before.gas),
        before.store.prepared(gas_object_id).storage_charge(
            backing,
            before.gas.bucketized(),
        ).failed is None,
        before.may_charge(backing, gas_object_id, gas),
        gas_object_id matches Some(x) ==> before.charged(backing, gas_object_id, gas).may_pay(x),
    ensures
        ({
            let charged = before.charged(backing, gas_object_id, gas);
            let after = charged.paid(gas_object_id);
            let source = touched(before.store, id);
            &&& charged.error is None
            &&& is_same_transaction(before.store, after)
            &&& after.events == before.store.events
            &&& after.deleted == before.store.deleted
            &&& after.written.contains_key(id) <==> before.store.written.contains_key(id)
                || gas_object_id == Some(id) || (is_mutable_input(before.store, id)
                && !before.store.deleted.contains_key(id))
            &&& after.written.contains_key(id) ==> {
                &&& charged.gas.charge ==> after.written[id].0.storage_rebate == source.0.size()
                    * charged.gas.storage_gas_price
                &&& !charged.gas.charge ==> after.written[id].0.storage_rebate == 0
            }
            &&& after.written.contains_key(id) && gas_object_id != Some(id) ==> {
                &&& after.written[id].0.data == source.0.data
                &&& after.written[id].0.owner == source.0.owner
                &&& after.written[id].1 == source.1
            }
            &&& gas_object_id == Some(id) ==> {
                &&& after.written[id].1 == WriteKind::Mutate
                &&& after.written[id].0.previous_transaction == before.store.tx_digest
                &&& is_same_coin(source.0, after.written[id].0)
                &&& balance_in(after.written[id].0) == balance_in(source.0)
                    - charged.gas.computation_cost - charged.gas.storage_cost + share(
                    charged.gas.storage_rebate,
                    before.store.storage_rebate_rate,
                )
            }
        }),
{
    let s = before.store;
    let computed = before.after_computation(gas);
    let charged = before.charged(backing, gas_object_id, gas);
    assert(computed.store == s && computed.gas == before.gas.bucketized() && computed.error is None);
    law_charging_for_storage_changes_no_object(s, backing, computed.gas, gas_object_id, id);
    crate::temporary_store::charge_laws::law_everything_touched_is_charged_for(
        s,
        gas_object_id,
        id,
    );
    let prepared = s.prepared(gas_object_id);
    if prepared.written.contains_key(id) {
        law_price_becomes_the_rebate(s, backing, computed.gas, gas_object_id, id);
        lemma_same_size(prepared.written[id].0, touched(s, id).0);
    }
    lemma_charge_keeps_prices(prepared, backing, computed.gas);
    if let Some(x) = gas_object_id {
        law_charging_for_storage_changes_no_object(s, backing, computed.gas, gas_object_id, x);
        lemma_id_is_in_data(charged.store.written[x].0, touched(s, x).0);
        if s.written.contains_key(x) {
            assert(s.written[x].0.id() == x);
        } else {
            assert(s.input_objects[x].id() == x);
        }
        law_payment_changes_the_balance_alone(charged, x, id);
    }
}

proof fn lemma_same_size(a: ObjectView, b: ObjectView)
    requires
        a.data == b.data,
    ensures
        a.size() == b.size(),
{
}

proof fn lemma_id_is_in_data(a: ObjectView, b: ObjectView)
    requires
        a.data == b.data,
    ensures
        a.id() == b.id(),
{
}

proof fn lemma_charge_keeps_prices<S: ObjectStore>(s: StoreView, store: S, gas: SuiGasStatus)
    ensures
        s.storage_charge(store, gas).gas.charge == gas.charge,
        s.storage_charge(store, gas).gas.storage_gas_price == gas.storage_gas_price,
{
    let written = crate::order::ascending(s.written.dom());
    let deleted = crate::order::ascending(s.deleted.dom());
    lemma_written_keeps_prices(s, store, gas, written);
    lemma_deleted_keeps_prices(s, store, s.charge_written(store, gas, written), deleted);
}

proof fn lemma_written_keeps_prices<S: ObjectStore>(
    s: StoreView,
    store: S,
    gas: SuiGasStatus,
    ids: Seq<ObjectID>,
)
    ensures
        is_same_meter(gas, s.charge_written(store, gas, ids).gas),
    decreases ids.len(),
{
    if ids.len() > 0 {
        lemma_written_keeps_prices(s, store, gas, ids.drop_last());
    }
}

proof fn lemma_deleted_keeps_prices<S: ObjectStore>(
    s: StoreView,
    store: S,
    start: crate::temporary_store::charge::Charge,
    ids: Seq<ObjectID>,
)
    ensures
        is_same_meter(start.gas, s.charge_deleted(store, start, ids).gas),
    decreases ids.len(),
{
    if ids.len() > 0 {
        lemma_deleted_keeps_prices(s, store, start, ids.drop_last());
    }
}

/// Whether one of the coins after the first is `id`.
pub open spec fn is_merged(gas: Seq<ObjectRef>, id: ObjectID) -> bool {
    exists|i: int| 1 <= i < gas.len() && #[trigger] gas[i].0 == id
}

/// A transaction whose execution failed, or that used up its budget or could not pay for its
/// storage, ends with the first of these errors, and keeps nothing of what it did: it has no events,
/// and has deleted just the coins that were merged into the first. Just the gas coin and every input
/// that may be changed and was not merged are written, as they were inputs. The gas coin, which holds
/// the balances of all coins, pays, and stays the coin that it was.
pub proof fn law_failed_execution_is_dropped<S: ObjectStore>(
    before: Settlement,
    backing: S,
    gas: Seq<ObjectRef>,
    id: ObjectID,
)
    requires
        before.store.wf(),
        gas.len() > 0,
        first_of_errors(
            before.error,
            before.gas,
            before.store.prepared(Some(gas[0].0)).storage_charge(
                backing,
                before.gas.bucketized(),
            ).failed,
        ) is Some,
        before.may_charge(backing, Some(gas[0].0), gas),
        before.charged(backing, Some(gas[0].0), gas).may_pay(gas[0].0),
    ensures
        ({
            let first = gas[0].0;
            let charged = before.charged(backing, Some(first), gas);
            let after = charged.paid(Some(first));
            let inputs = before.store.input_objects;
            let coin = after.written[first].0;
            &&& charged.error == first_of_errors(
                before.error,
                before.gas,
                before.store.prepared(Some(first)).storage_charge(
                    backing,
                    before.gas.bucketized(),
                ).failed,
            )
            &&& is_same_transaction(before.store, after)
            &&& after.events.len() == 0
            &&& after.deleted.contains_key(id) <==> is_merged(gas, id)
            &&& is_merged(gas, id) ==> after.deleted[id] == (
                inputs[id].data->Move_0.version,
                DeleteKind::Normal,
            )
            &&& after.written.contains_key(id) <==> id == first || (is_mutable_input(
                before.store,
                id,
            ) && !is_merged(gas, id))
            &&& after.written.contains_key(id) ==> after.written[id].1 == WriteKind::Mutate
            &&& after.written.contains_key(id) && id != first ==> {
                &&& after.written[id].0.data == inputs[id].data
                &&& after.written[id].0.owner == inputs[id].owner
            }
            &&& is_same_coin(inputs[first], coin)
            &&& coin.previous_transaction == before.store.tx_digest
            &&& balance_in(coin) == balances(before.store, gas) - charged.gas.computation_cost
                - charged.gas.storage_cost + share(
                charged.gas.storage_rebate,
                before.store.storage_rebate_rate,
            )
        }),
{
    let first = gas[0].0;
    let start = before.store.drop_writes();
    let computed = before.after_computation(gas);
    let stored = computed.after_storage(backing, Some(first));
    let charged = before.charged(backing, Some(first), gas);
    crate::temporary_store::laws::law_storage_charge_can_be_dropped(
        computed.store,
        backing,
        computed.gas,
        Some(first),
    );
    lemma_reset_keeps_start(before.store, gas);
    let settling = if computed.storage_error(backing, Some(first)) is Some {
        stored.reset(gas)
    } else {
        computed
    };
    assert(stored.store.drop_writes() == computed.store.drop_writes());
    assert(computed.store.drop_writes() == start);
    assert(settling.store == start.smash_gas(gas));
    assert(charged == settling.after_storage(backing, Some(first)) || (charged.store
        == settling.after_storage(backing, Some(first)).store && charged.gas
        == settling.after_storage(backing, Some(first)).gas));
    lemma_start_over(start, gas, id);
    lemma_start_over(start, gas, first);
    assert(settling.store.read_object(first) is Some);
    law_charging_for_storage_changes_no_object(
        settling.store,
        backing,
        settling.gas,
        Some(first),
        id,
    );
    law_charging_for_storage_changes_no_object(
        settling.store,
        backing,
        settling.gas,
        Some(first),
        first,
    );
    assert(is_mutable_input(settling.store, id) == is_mutable_input(before.store, id));
    lemma_id_is_in_data(charged.store.written[first].0, touched(settling.store, first).0);
    law_payment_changes_the_balance_alone(charged, first, id);
    lemma_balances_of_inputs(before.store, start, gas);
}

proof fn lemma_balances_of_inputs(a: StoreView, b: StoreView, gas: Seq<ObjectRef>)
    requires
        a.input_objects == b.input_objects,
    ensures
        balances(a, gas) == balances(b, gas),
    decreases gas.len(),
{
    if gas.len() > 0 {
        lemma_balances_of_inputs(a, b, gas.drop_last());
    }
}

proof fn lemma_reset_keeps_start(s: StoreView, gas: Seq<ObjectRef>)
    ensures
        s.reset(gas).drop_writes() == s.drop_writes(),
        s.drop_writes().drop_writes() == s.drop_writes(),
{
    crate::temporary_store::smash::lemma_merge_frame(
        s.drop_writes(),
        s.input_objects[gas[0].0].gas_balance(),
        crate::temporary_store::smash::merged_coins(gas),
    );
    assert(s.reset(gas).drop_writes() =~= s.drop_writes());
}

proof fn lemma_start_over(start: StoreView, gas: Seq<ObjectRef>, id: ObjectID)
    requires
        start.wf(),
        start.drop_writes() == start,
        start.may_smash(gas),
        start.smash_result(gas) is Ok,
        start.smash_gas(gas).read_object(gas[0].0) is Some,
        is_sui_coin(start.smash_gas(gas).read_object(gas[0].0)->0),
    ensures
        ({
            let after = start.smash_gas(gas);
            let coin = touched(after, gas[0].0).0;
            let first = start.input_objects[gas[0].0];
            &&& is_same_transaction(start, after)
            &&& after.events.len() == 0
            &&& after.gas_charged == start.gas_charged
            &&& after.deleted.contains_key(id) <==> is_merged(gas, id)
            &&& is_merged(gas, id) ==> after.deleted[id] == (
                start.input_objects[id].data->Move_0.version,
                DeleteKind::Normal,
            )
            &&& after.written.contains_key(id) ==> id == gas[0].0 && after.written[id].1
                == WriteKind::Mutate
            &&& is_same_coin(first, coin)
            &&& coin.id() == gas[0].0
            &&& balance_in(coin) == balances(start, gas)
        }),
{
    assert(start.written.dom() =~= Set::<ObjectID>::empty());
    assert(start.deleted.dom() =~= Set::<ObjectID>::empty());
    let first = start.input_objects[gas[0].0];
    assert(start.events.len() == 0);
    if gas.len() > 1 {
        law_smashing_succeeds_on_coins_that_fit(start, gas);
        assert(start.first_gas_fault(gas) is None);
        assert forall|i: int| 0 <= i < gas.len() implies start.input_objects[(
        #[trigger] gas[i]).0].id() == gas[i].0 by {
            lemma_coins_are_inputs(start, gas, i);
        }
        law_smashing_touches_the_coins_alone(start, gas, id);
        law_smashing_touches_the_coins_alone(start, gas, gas[0].0);
        assert(is_sui_coin(start.input_objects[gas[0].0]));
        law_balance_can_be_set(first, balances(start, gas) as u64);
        law_coin_holds_its_balance(first);
        lemma_with_gas_balance(first, balances(start, gas) as u64);
        lemma_same_coin_same_id(first, start.smash_gas(gas).written[gas[0].0].0);
    } else {
        law_nothing_is_smashed_without_need(start, gas);
        assert(gas.drop_last() =~= Seq::<ObjectRef>::empty());
        reveal_with_fuel(balances, 2);
        assert(start.input_objects.contains_key(gas[0].0));
    }
}

proof fn lemma_same_coin_same_id(a: ObjectView, b: ObjectView)
    requires
        is_sui_coin(a),
        is_same_coin(a, b),
    ensures
        a.id() == b.id(),
{
    let x = a.data->Move_0.contents;
    let y = b.data->Move_0.contents;
    assert(x.subrange(0, 16) =~= x.subrange(0, 32).subrange(0, 16));
    assert(y.subrange(0, 16) =~= y.subrange(0, 32).subrange(0, 16));
    assert(x.subrange(16, 32) =~= x.subrange(0, 32).subrange(16, 32));
    assert(y.subrange(16, 32) =~= y.subrange(0, 32).subrange(16, 32));
}

/// Whatever becomes of execution, the meter differs from what it was after the computation cost was
/// rounded up in nothing but what it counted for storage.
pub proof fn law_meter_keeps_all_but_storage<S: ObjectStore>(
    before: Settlement,
    backing: S,
    gas_object_id: Option<ObjectID>,
    gas: Seq<ObjectRef>,
)
    ensures
        is_same_meter(before.gas.bucketized(), before.charged(backing, gas_object_id, gas).gas),
{
    let computed = before.after_computation(gas);
    lemma_storage_keeps_meter(computed.store.prepared(gas_object_id), backing, computed.gas);
    let again = computed.after_storage(backing, gas_object_id).reset(gas);
    lemma_storage_keeps_meter(again.store.prepared(gas_object_id), backing, again.gas);
}

proof fn lemma_storage_keeps_meter<S: ObjectStore>(s: StoreView, store: S, gas: SuiGasStatus)
    ensures
        is_same_meter(gas, s.storage_charge(store, gas).gas),
{
    let written = crate::order::ascending(s.written.dom());
    lemma_written_keeps_prices(s, store, gas, written);
    lemma_deleted_keeps_prices(
        s,
        store,
        s.charge_written(store, gas, written),
        crate::order::ascending(s.deleted.dom()),
    );
}

/// Whichever object pays for gas, and also if none does, a failed transaction keeps nothing of what it
/// did: it ends with the first error, has no events, and has deleted just the coins that were merged.
/// Just the coin that they were merged into, the object that pays and the inputs that may be changed
/// are written, each with the owner that it had as an input, and all but the coin that others were
/// merged into and the object that pays with the value that they had.
pub proof fn law_failed_execution_keeps_nothing<S: ObjectStore>(
    before: Settlement,
    backing: S,
    gas_object_id: Option<ObjectID>,
    gas: Seq<ObjectRef>,
    id: ObjectID,
)
    requires
        before.store.wf(),
        first_of_errors(
            before.error,
            before.gas,
            before.store.prepared(gas_object_id).storage_charge(
                backing,
                before.gas.bucketized(),
            ).failed,
        ) is Some,
        before.may_charge(backing, gas_object_id, gas),
        gas_object_id matches Some(x) ==> before.charged(backing, gas_object_id, gas).may_pay(x),
    ensures
        ({
            let charged = before.charged(backing, gas_object_id, gas);
            let after = charged.paid(gas_object_id);
            let inputs = before.store.input_objects;
            let is_kept = gas.len() > 1 && id == gas[0].0;
            &&& charged.error == first_of_errors(
                before.error,
                before.gas,
                before.store.prepared(gas_object_id).storage_charge(
                    backing,
                    before.gas.bucketized(),
                ).failed,
            )
            &&& is_same_transaction(before.store, after)
            &&& after.events.len() == 0
            &&& after.deleted.contains_key(id) <==> is_merged(gas, id)
            &&& after.written.contains_key(id) <==> is_kept || gas_object_id == Some(id) || (
            is_mutable_input(before.store, id) && !is_merged(gas, id))
            &&& after.written.contains_key(id) ==> {
                &&& after.written[id].1 == WriteKind::Mutate
                &&& after.written[id].0.owner == inputs[id].owner
                &&& !is_kept && gas_object_id != Some(id) ==> after.written[id].0.data
                    == inputs[id].data
            }
            &&& gas_object_id is None ==> after.gas_charged == before.store.gas_charged
        }),
{
    let start = before.store.drop_writes();
    let computed = before.after_computation(gas);
    let stored = computed.after_storage(backing, gas_object_id);
    let charged = before.charged(backing, gas_object_id, gas);
    crate::temporary_store::laws::law_storage_charge_can_be_dropped(
        computed.store,
        backing,
        computed.gas,
        gas_object_id,
    );
    lemma_reset_keeps_start(before.store, gas);
    let settling = if computed.storage_error(backing, gas_object_id) is Some {
        stored.reset(gas)
    } else {
        computed
    };
    assert(stored.store.drop_writes() == computed.store.drop_writes());
    assert(computed.store.drop_writes() == start);
    assert(settling.store == start.smash_gas(gas));
    assert(charged.store == settling.after_storage(backing, gas_object_id).store);
    assert(start.written.dom() =~= Set::<ObjectID>::empty());
    assert(start.deleted.dom() =~= Set::<ObjectID>::empty());
    lemma_smashed_start(start, gas, id);
    if let Some(x) = gas_object_id {
        lemma_smashed_start(start, gas, x);
    }
    law_charging_for_storage_changes_no_object(
        settling.store,
        backing,
        settling.gas,
        gas_object_id,
        id,
    );
    assert(is_mutable_input(settling.store, id) == is_mutable_input(before.store, id));
    if let Some(x) = gas_object_id {
        law_charging_for_storage_changes_no_object(
            settling.store,
            backing,
            settling.gas,
            gas_object_id,
            x,
        );
        lemma_id_is_in_data(charged.store.written[x].0, touched(settling.store, x).0);
        law_payment_changes_the_balance_alone(charged, x, id);
        law_payment_changes_the_balance_alone(charged, x, x);
    }
}

proof fn lemma_smashed_start(start: StoreView, gas: Seq<ObjectRef>, id: ObjectID)
    requires
        start.wf(),
        start.drop_writes() == start,
        start.may_smash(gas),
        start.smash_result(gas) is Ok,
    ensures
        ({
            let after = start.smash_gas(gas);
            &&& is_same_transaction(start, after)
            &&& after.events.len() == 0
            &&& after.gas_charged == start.gas_charged
            &&& after.deleted.contains_key(id) <==> is_merged(gas, id)
            &&& after.written.contains_key(id) <==> gas.len() > 1 && id == gas[0].0
            &&& after.written.contains_key(id) ==> {
                &&& after.written[id].1 == WriteKind::Mutate
                &&& after.written[id].0.owner == start.input_objects[id].owner
                &&& after.written[id].0.id() == id
            }
            &&& start.input_objects.contains_key(id) ==> start.input_objects[id].id() == id
        }),
{
    assert(start.written.dom() =~= Set::<ObjectID>::empty());
    assert(start.deleted.dom() =~= Set::<ObjectID>::empty());
    assert(start.events.len() == 0);
    let first = start.input_objects[gas[0].0];
    if gas.len() > 1 {
        law_smashing_succeeds_on_coins_that_fit(start, gas);
        assert(start.first_gas_fault(gas) is None);
        assert forall|i: int| 0 <= i < gas.len() implies start.input_objects[(
        #[trigger] gas[i]).0].id() == gas[i].0 by {
            lemma_coins_are_inputs(start, gas, i);
        }
        law_smashing_touches_the_coins_alone(start, gas, id);
        assert(is_sui_coin(start.input_objects[gas[0].0]));
        lemma_same_coin_same_id(first, start.smash_gas(gas).written[gas[0].0].0);
        assert(start.input_objects[gas[0].0].id() == gas[0].0);
    } else {
        law_nothing_is_smashed_without_need(start, gas);
    }
}

} // verus!

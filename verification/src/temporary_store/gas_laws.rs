use crate::base_types::{ObjectID, ObjectRef};
use crate::coin::{law_balance_is_in_the_last_bytes, law_coin_round_trip, lemma_coin_balance_fits};
use crate::error::{ExecutionError, InvariantViolation};
use crate::gas::{balance_after_gas, bucket_cost, ComputationBucket, GasCostSummary, SuiGasStatus};
use crate::move_types::MoveObjectType;
use crate::object::{lemma_with_gas_balance, DataView, ObjectView};
use crate::storage::{DeleteKind, WriteKind};
use crate::temporary_store::count_laws::balance_bytes;
use crate::temporary_store::model::StoreView;
use crate::temporary_store::smash::{lemma_merge_frame, merged_coins};
use vstd::prelude::*;

verus! {

/// Computation is paid as the first step that covers it, and as the last step where none does.
/// Where there are no steps, it is paid as it is.
pub proof fn law_computation_is_paid_by_steps(buckets: Seq<ComputationBucket>, units: u64)
    ensures
        buckets.len() == 0 ==> bucket_cost(buckets, units) == units,
        buckets.len() > 0 ==> exists|i: int|
            #![trigger buckets[i]]
            0 <= i < buckets.len() && bucket_cost(buckets, units) == buckets[i].cost && (
            buckets[i].max >= units || i == buckets.len() - 1) && forall|j: int|
                0 <= j < i ==> (#[trigger] buckets[j]).max < units,
    decreases buckets.len(),
{
    if buckets.len() > 0 {
        if buckets[0].max >= units || buckets.len() == 1 {
            assert(bucket_cost(buckets, units) == buckets[0].cost);
        } else {
            let rest = buckets.drop_first();
            law_computation_is_paid_by_steps(rest, units);
            let i = choose|i: int|
                #![trigger rest[i]]
                0 <= i < rest.len() && bucket_cost(rest, units) == rest[i].cost && (rest[i].max
                    >= units || i == rest.len() - 1) && forall|j: int|
                    0 <= j < i ==> (#[trigger] rest[j]).max < units;
            assert(buckets[i + 1] == rest[i]);
            assert forall|j: int| 0 <= j < i + 1 implies (#[trigger] buckets[j]).max < units by {
                if j > 0 {
                    assert(buckets[j] == rest[j - 1]);
                }
            }
        }
    }
}

/// Rounding the computation cost up sets it to the price of the units it is paid as, or to the whole
/// budget where that is reached, which is too much. It changes nothing else, and nothing at all of a
/// meter that does not charge.
pub proof fn law_computation_cost_is_cut_at_the_budget(gas: SuiGasStatus)
    ensures
        ({
            let cost = bucket_cost(gas.computation_buckets@, gas.computation_units)
                * gas.gas_price;
            let after = gas.bucketized();
            &&& gas.computation_exceeds_budget() <==> gas.charge && cost >= gas.gas_budget
            &&& !gas.charge ==> after == gas
            &&& gas.charge && cost >= gas.gas_budget ==> after == (SuiGasStatus {
                computation_cost: gas.gas_budget,
                ..gas
            })
            &&& gas.charge && cost < gas.gas_budget ==> {
                &&& after.computation_cost == cost
                &&& after == (SuiGasStatus { computation_cost: after.computation_cost, ..gas })
            }
        }),
{
    let units = bucket_cost(gas.computation_buckets@, gas.computation_units);
    assert(0 <= units * gas.gas_price) by (nonlinear_arith)
        requires
            0 <= units,
            0 <= gas.gas_price,
    ;
}

/// A meter that charges counts a rebate and the price of the new bytes where the budget covers them,
/// and nothing where it does not. A meter that does not charge counts the rebate apart, and no price.
pub proof fn law_meter_counts_what_is_covered(gas: SuiGasStatus, size: nat, rebate: u64)
    requires
        gas.storage_rebate + rebate <= u64::MAX,
        gas.unmetered_storage_rebate + rebate <= u64::MAX,
    ensures
        gas.price_of(size) == if gas.charge {
            size * gas.storage_gas_price
        } else {
            0
        },
        gas.affords(size) <==> !gas.charge || gas.computation_cost + gas.storage_cost + size
            * gas.storage_gas_price <= gas.gas_budget,
        !gas.charge ==> gas.charged(size, rebate).unmetered_storage_rebate
            == gas.unmetered_storage_rebate + rebate && gas.charged(size, rebate) == (SuiGasStatus {
            unmetered_storage_rebate: gas.charged(size, rebate).unmetered_storage_rebate,
            ..gas
        }),
        gas.charge && !gas.affords(size) ==> gas.charged(size, rebate) == gas,
        gas.charge && gas.affords(size) ==> {
            let after = gas.charged(size, rebate);
            &&& after.storage_rebate == gas.storage_rebate + rebate
            &&& after.storage_cost == gas.storage_cost + size * gas.storage_gas_price
            &&& after == (SuiGasStatus {
                storage_rebate: after.storage_rebate,
                storage_cost: after.storage_cost,
                ..gas
            })
        },
{
    assert(0 <= size * gas.storage_gas_price) by (nonlinear_arith)
        requires
            0 <= size,
            0 <= gas.storage_gas_price,
    ;
}

/// Resetting a meter clears what was counted for storage, and leaves the rest. Its summary is what
/// it has counted, and what was used is the cost of computation and storage.
pub proof fn law_meter_is_reset_and_summed_up(gas: SuiGasStatus)
    ensures
        gas.without_storage().storage_cost == 0,
        gas.without_storage().storage_rebate == 0,
        gas.without_storage().unmetered_storage_rebate == 0,
        gas.without_storage() == (SuiGasStatus {
            storage_cost: 0,
            storage_rebate: 0,
            unmetered_storage_rebate: 0,
            ..gas
        }),
        gas.spec_summary() == (GasCostSummary {
            computation_cost: gas.computation_cost,
            storage_cost: gas.storage_cost,
            storage_rebate: gas.storage_rebate,
        }),
        gas.spec_summary().spec_gas_used() == gas.computation_cost + gas.storage_cost,
        gas.counted_rebate() == if gas.charge {
            gas.storage_rebate
        } else {
            gas.unmetered_storage_rebate
        },
{
}

/// Whether an object is a SUI coin.
pub open spec fn is_sui_coin(object: ObjectView) -> bool {
    match object.data {
        DataView::Move(m) => m.type_ == MoveObjectType::GasCoin && m.contents.len() == 40,
        DataView::Package(_) => false,
    }
}

/// The balance of a SUI coin.
pub open spec fn balance_in(object: ObjectView) -> int {
    balance_bytes(object.data->Move_0.contents)
}

/// Whether `after` is `before` with another balance, and otherwise the same coin: of the same type,
/// with the same id at the same version, of the same owner and with the same record.
pub open spec fn is_same_coin(before: ObjectView, after: ObjectView) -> bool {
    &&& before.data is Move
    &&& after.data is Move
    &&& after.data->Move_0.type_ == before.data->Move_0.type_
    &&& after.data->Move_0.has_public_transfer == before.data->Move_0.has_public_transfer
    &&& after.data->Move_0.version == before.data->Move_0.version
    &&& after.data->Move_0.contents.len() == 40
    &&& after.data->Move_0.contents.subrange(0, 32) == before.data->Move_0.contents.subrange(0, 32)
    &&& after.owner == before.owner
}

/// An object is a SUI coin in whichever way that is said, and its balance is what its bytes count.
pub proof fn law_coin_holds_its_balance(object: ObjectView)
    ensures
        object.is_gas_coin() <==> is_sui_coin(object),
        is_sui_coin(object) ==> object.gas_balance() == balance_in(object),
        is_sui_coin(object) ==> 0 <= balance_in(object) <= u64::MAX,
{
    if let DataView::Move(m) = object.data {
        law_balance_is_in_the_last_bytes(m.contents);
        if m.contents.len() == 40 {
            lemma_coin_balance_fits(m.contents);
        }
    }
}

/// A coin with another balance is otherwise the same coin, with the same storage rebate and the same
/// record of who wrote it last.
pub proof fn law_balance_can_be_set(object: ObjectView, balance: u64)
    requires
        is_sui_coin(object),
    ensures
        is_same_coin(object, object.with_gas_balance(balance)),
        balance_in(object.with_gas_balance(balance)) == balance,
        object.with_gas_balance(balance).storage_rebate == object.storage_rebate,
        object.with_gas_balance(balance).previous_transaction == object.previous_transaction,
{
    let contents = object.data->Move_0.contents;
    let after = object.with_gas_balance(balance);
    law_coin_holds_its_balance(object);
    lemma_with_gas_balance(object, balance);
    law_coin_holds_its_balance(after);
    law_coin_round_trip(contents, balance);
    law_balance_is_in_the_last_bytes(contents);
    law_balance_is_in_the_last_bytes(after.data->Move_0.contents);
}

/// A coin that pays loses the cost and gains the rebate.
pub proof fn law_payment_is_cost_less_rebate(object: ObjectView, deduct: int, rebate: int)
    requires
        is_sui_coin(object),
    ensures
        balance_after_gas(object, deduct, rebate) == balance_in(object) - deduct + rebate,
{
    law_coin_holds_its_balance(object);
}

/// The sum of the balances of the input coins.
pub open spec fn balances(s: StoreView, gas: Seq<ObjectRef>) -> int
    decreases gas.len(),
{
    if gas.len() == 0 {
        0
    } else {
        balances(s, gas.drop_last()) + balance_in(s.input_objects[gas.last().0])
    }
}

/// Whether every one of `gas` is a SUI coin among the inputs.
pub open spec fn are_sui_coins(s: StoreView, gas: Seq<ObjectRef>) -> bool {
    forall|i: int| 0 <= i < gas.len() ==> is_sui_coin(s.input_objects[(#[trigger] gas[i]).0])
}

proof fn lemma_balances(s: StoreView, gas: Seq<ObjectRef>)
    requires
        are_sui_coins(s, gas),
    ensures
        s.total_balance(gas) == balances(s, gas),
    decreases gas.len(),
{
    if gas.len() > 0 {
        let rest = gas.drop_last();
        assert forall|i: int| 0 <= i < rest.len() implies is_sui_coin(
            s.input_objects[(#[trigger] rest[i]).0],
        ) by {
            assert(rest[i] == gas[i]);
        }
        lemma_balances(s, rest);
        assert(is_sui_coin(s.input_objects[gas[gas.len() - 1].0]));
        law_coin_holds_its_balance(s.input_objects[gas.last().0]);
    }
}

proof fn lemma_merge_fits(s: StoreView, balance: nat, others: Seq<ObjectRef>)
    requires
        balance <= u64::MAX,
    ensures
        s.merge_coins(balance, others).1 is Some <==> balance + s.total_balance(others) <= u64::MAX,
        s.merge_coins(balance, others).1 matches Some(sum) ==> sum == balance + s.total_balance(
            others,
        ),
    decreases others.len(),
{
    if others.len() > 0 {
        lemma_merge_fits(s, balance, others.drop_last());
    }
}

proof fn lemma_faultless(s: StoreView, gas: Seq<ObjectRef>)
    ensures
        s.first_gas_fault(gas) is None <==> are_sui_coins(s, gas),
        s.first_gas_fault(gas) matches Some(fault) ==> exists|i: int|
            #![trigger gas[i]]
            0 <= i < gas.len() && !is_sui_coin(s.input_objects[gas[i].0]) && are_sui_coins(
                s,
                gas.take(i),
            ) && (fault == InvariantViolation::GasCoinEncoding <==> s.input_objects[gas[i].0].data
                is Move && s.input_objects[gas[i].0].data->Move_0.type_ == MoveObjectType::GasCoin)
                && (fault == InvariantViolation::GasCoinEncoding || fault
                == InvariantViolation::NonGasCoinAsGas),
    decreases gas.len(),
{
    if gas.len() > 0 {
        let n = gas.len() - 1;
        let rest = gas.drop_last();
        lemma_faultless(s, rest);
        assert(rest =~= gas.take(n));
        assert forall|i: int| 0 <= i < rest.len() implies #[trigger] rest[i] == gas[i] by {
        }
        if s.first_gas_fault(rest) is Some {
            let fault = s.first_gas_fault(rest)->0;
            let i = choose|i: int|
                #![trigger rest[i]]
                0 <= i < rest.len() && !is_sui_coin(s.input_objects[rest[i].0]) && are_sui_coins(
                    s,
                    rest.take(i),
                ) && (fault == InvariantViolation::GasCoinEncoding
                    <==> s.input_objects[rest[i].0].data is Move
                    && s.input_objects[rest[i].0].data->Move_0.type_ == MoveObjectType::GasCoin)
                    && (fault == InvariantViolation::GasCoinEncoding || fault
                    == InvariantViolation::NonGasCoinAsGas);
            assert(rest.take(i) =~= gas.take(i));
            assert(gas[i] == rest[i]);
        } else {
            law_balance_is_in_the_last_bytes(s.input_objects[gas[n].0].data->Move_0.contents);
            assert forall|i: int| 0 <= i < rest.len() implies is_sui_coin(
                s.input_objects[(#[trigger] gas[i]).0],
            ) by {
                assert(rest[i] == gas[i]);
            }
            if is_sui_coin(s.input_objects[gas[n].0]) {
                assert(are_sui_coins(s, gas));
            } else {
                assert(gas[n] == gas.last());
            }
        }
    }
}

/// Smashing several coins succeeds just if all are SUI coins and the sum of their balances fits, and
/// then gives the first one. If one is no SUI coin, the first such one decides the error: whether it
/// is of the type of SUI coins, and not readable as one, or is not even of that type.
pub proof fn law_smashing_succeeds_on_coins_that_fit(s: StoreView, gas: Seq<ObjectRef>)
    requires
        gas.len() > 1,
    ensures
        s.smash_result(gas) is Ok <==> are_sui_coins(s, gas) && balances(s, gas) <= u64::MAX,
        s.smash_result(gas) is Ok ==> s.smash_result(gas)->Ok_0 == gas[0],
        are_sui_coins(s, gas) && balances(s, gas) > u64::MAX ==> s.smash_result(gas) == Err::<
            ObjectRef,
            ExecutionError,
        >(ExecutionError::CoinBalanceOverflow),
        !are_sui_coins(s, gas) ==> exists|i: int|
            #![trigger gas[i]]
            0 <= i < gas.len() && !is_sui_coin(s.input_objects[gas[i].0]) && are_sui_coins(
                s,
                gas.take(i),
            ) && s.smash_result(gas) == Err::<ObjectRef, ExecutionError>(
                ExecutionError::InvariantViolation(
                    if s.input_objects[gas[i].0].data is Move
                        && s.input_objects[gas[i].0].data->Move_0.type_
                        == MoveObjectType::GasCoin {
                        InvariantViolation::GasCoinEncoding
                    } else {
                        InvariantViolation::NonGasCoinAsGas
                    },
                ),
            ),
{
    lemma_faultless(s, gas);
    if are_sui_coins(s, gas) {
        lemma_smash_sum(s, gas);
    }
}

proof fn lemma_smash_sum(s: StoreView, gas: Seq<ObjectRef>)
    requires
        gas.len() > 1,
        are_sui_coins(s, gas),
    ensures
        s.first_gas_fault(gas) is None,
        s.merge_gas(gas).1 is Some <==> balances(s, gas) <= u64::MAX,
        s.merge_gas(gas).1 matches Some(sum) ==> sum == balances(s, gas),
{
    let first = s.input_objects[gas[0].0];
    lemma_faultless(s, gas);
    assert(is_sui_coin(first));
    law_coin_holds_its_balance(first);
    lemma_merge_fits(s, first.gas_balance(), merged_coins(gas));
    crate::temporary_store::laws::lemma_total_balance_of_merged(s, gas);
    lemma_balances(s, gas);
}

/// One coin is not smashed, and neither are coins with a fault: the store stays as it is.
pub proof fn law_nothing_is_smashed_without_need(s: StoreView, gas: Seq<ObjectRef>)
    ensures
        gas.len() <= 1 ==> s.smash_gas(gas) == s,
        gas.len() == 1 ==> s.smash_result(gas) == Ok::<ObjectRef, ExecutionError>(gas[0]),
        gas.len() > 1 && !are_sui_coins(s, gas) ==> s.smash_gas(gas) == s,
{
    lemma_faultless(s, gas);
}

/// Smashing writes the first coin, as the same coin with the balances of all, on record as written by
/// the transaction and as changed, and deletes just the others, each at its version. It touches
/// nothing else.
pub proof fn law_smashing_touches_the_coins_alone(s: StoreView, gas: Seq<ObjectRef>, id: ObjectID)
    requires
        gas.len() > 1,
        are_sui_coins(s, gas),
        balances(s, gas) <= u64::MAX,
        forall|i: int|
            0 <= i < gas.len() ==> s.input_objects[(#[trigger] gas[i]).0].id() == gas[i].0,
    ensures
        ({
            let after = s.smash_gas(gas);
            let first = s.input_objects[gas[0].0];
            let coin = after.written[gas[0].0].0;
            let is_merged = exists|i: int| 1 <= i < gas.len() && #[trigger] gas[i].0 == id;
            &&& after.written.contains_key(gas[0].0)
            &&& after.written[gas[0].0].1 == WriteKind::Mutate
            &&& is_same_coin(first, coin)
            &&& balance_in(coin) == balances(s, gas)
            &&& coin.storage_rebate == first.storage_rebate
            &&& coin.previous_transaction == s.tx_digest
            &&& id != gas[0].0 ==> (after.written.contains_key(id) <==> s.written.contains_key(id))
                && after.written[id] == s.written[id]
            &&& after.deleted.contains_key(id) <==> s.deleted.contains_key(id) || is_merged
            &&& is_merged ==> after.deleted[id] == (
                s.input_objects[id].data->Move_0.version,
                DeleteKind::Normal,
            )
            &&& !is_merged ==> after.deleted[id] == s.deleted[id]
            &&& after == (StoreView { written: after.written, deleted: after.deleted, ..s })
        }),
{
    let first = s.input_objects[gas[0].0];
    let others = merged_coins(gas);
    let n = gas.len() as int;
    lemma_smash_sum(s, gas);
    lemma_merge_frame(s, first.gas_balance(), others);
    assert(is_sui_coin(s.input_objects[gas[0].0]));
    law_balance_can_be_set(first, balances(s, gas) as u64);
    law_coin_holds_its_balance(first);
    lemma_with_gas_balance(first, balances(s, gas) as u64);
    assert(s.input_objects[gas[0].0].id() == gas[0].0);
    assert forall|j: int| 0 <= j < others.len() implies {
        &&& s.input_objects[(#[trigger] others[j]).0].id() == others[j].0
        &&& s.input_objects[others[j].0].data is Move
    } by {
        let k = if j == 0 {
            n - 1
        } else {
            j
        };
        assert(others[j] == gas[k]);
        assert(is_sui_coin(s.input_objects[gas[k].0]));
    }
    lemma_merge_deletes(s, first.gas_balance(), others, id);
    let is_merged = exists|i: int| 1 <= i < gas.len() && #[trigger] gas[i].0 == id;
    if is_merged {
        let i = choose|i: int| 1 <= i < gas.len() && #[trigger] gas[i].0 == id;
        let j = if i == n - 1 {
            0
        } else {
            i
        };
        assert(others[j] == gas[i]);
        assert(others[j].0 == id);
    }
    if exists|j: int| 0 <= j < others.len() && (#[trigger] others[j]).0 == id {
        let j = choose|j: int| 0 <= j < others.len() && (#[trigger] others[j]).0 == id;
        let k = if j == 0 {
            n - 1
        } else {
            j
        };
        assert(others[j] == gas[k]);
        assert(gas[k].0 == id);
    }
}

/// The coin that is merged as number `j`: the last one first, then those in between.
pub open spec fn merged_at(gas: Seq<ObjectRef>, j: int) -> ObjectRef {
    if j == 0 {
        gas.last()
    } else {
        gas[j]
    }
}

/// The balance of the first coin after the mergers up to number `j`.
pub open spec fn balance_up_to(s: StoreView, gas: Seq<ObjectRef>, j: int) -> int
    decreases j + 1,
{
    if j < 0 {
        balance_in(s.input_objects[gas[0].0])
    } else {
        balance_up_to(s, gas, j - 1) + balance_in(s.input_objects[merged_at(gas, j).0])
    }
}

/// Where the balances of all coins do not fit, the merger stops at the first sum that does not: just
/// the coins up to there are deleted, and nothing is written.
pub proof fn law_overflow_stops_the_merger(s: StoreView, gas: Seq<ObjectRef>, id: ObjectID)
    requires
        gas.len() > 1,
        are_sui_coins(s, gas),
        balances(s, gas) > u64::MAX,
        forall|i: int|
            0 <= i < gas.len() ==> s.input_objects[(#[trigger] gas[i]).0].id() == gas[i].0,
    ensures
        ({
            let after = s.smash_gas(gas);
            &&& after.written == s.written
            &&& after.deleted.contains_key(id) <==> s.deleted.contains_key(id) || exists|j: int|
                #![trigger merged_at(gas, j)]
                0 <= j < gas.len() - 1 && merged_at(gas, j).0 == id && balance_up_to(s, gas, j)
                    <= u64::MAX
            &&& after == (StoreView { deleted: after.deleted, ..s })
        }),
{
    let first = s.input_objects[gas[0].0];
    let others = merged_coins(gas);
    let n = gas.len() as int;
    lemma_smash_sum(s, gas);
    lemma_merge_frame(s, first.gas_balance(), others);
    assert(is_sui_coin(s.input_objects[gas[0].0]));
    law_coin_holds_its_balance(first);
    lemma_merge_until(s, gas, n - 1, id);
    assert(others.take(n - 1) =~= others);
}

proof fn lemma_merge_until(s: StoreView, gas: Seq<ObjectRef>, n: int, id: ObjectID)
    requires
        gas.len() > 1,
        0 <= n <= gas.len() - 1,
        are_sui_coins(s, gas),
        forall|i: int|
            0 <= i < gas.len() ==> s.input_objects[(#[trigger] gas[i]).0].id() == gas[i].0,
    ensures
        ({
            let start = s.input_objects[gas[0].0].gas_balance();
            let (after, sum) = s.merge_coins(start, merged_coins(gas).take(n));
            &&& 0 <= balance_up_to(s, gas, n - 1)
            &&& sum is Some <==> balance_up_to(s, gas, n - 1) <= u64::MAX
            &&& sum is Some ==> sum->0 == balance_up_to(s, gas, n - 1)
            &&& after.deleted.contains_key(id) <==> s.deleted.contains_key(id) || exists|j: int|
                #![trigger merged_at(gas, j)]
                0 <= j < n && merged_at(gas, j).0 == id && balance_up_to(s, gas, j) <= u64::MAX
        }),
    decreases n,
{
    let others = merged_coins(gas);
    let start = s.input_objects[gas[0].0].gas_balance();
    assert(is_sui_coin(s.input_objects[gas[0].0]));
    law_coin_holds_its_balance(s.input_objects[gas[0].0]);
    if n == 0 {
        assert(others.take(0) =~= Seq::<ObjectRef>::empty());
    } else {
        let j = n - 1;
        let k = if j == 0 {
            gas.len() - 1
        } else {
            j
        };
        lemma_merge_until(s, gas, j, id);
        assert(others.take(n).drop_last() =~= others.take(j));
        assert(others[j] == gas[k]);
        assert(merged_at(gas, j) == gas[k]);
        assert(is_sui_coin(s.input_objects[gas[k].0]));
        law_coin_holds_its_balance(s.input_objects[gas[k].0]);
        assert(s.input_objects[gas[k].0].id() == gas[k].0);
        let so_far = s.merge_coins(start, others.take(j)).0;
        let after = s.merge_coins(start, others.take(n)).0;
        if after.deleted.contains_key(id) && !s.deleted.contains_key(id) {
            if so_far.deleted.contains_key(id) {
                let i = choose|i: int|
                    #![trigger merged_at(gas, i)]
                    0 <= i < j && merged_at(gas, i).0 == id && balance_up_to(s, gas, i) <= u64::MAX;
                assert(merged_at(gas, i).0 == id);
            } else {
                assert(merged_at(gas, j).0 == id);
            }
        }
    }
}

proof fn lemma_merge_deletes(s: StoreView, balance: nat, others: Seq<ObjectRef>, id: ObjectID)
    requires
        s.merge_coins(balance, others).1 is Some,
        forall|j: int|
            0 <= j < others.len() ==> s.input_objects[(#[trigger] others[j]).0].id() == others[j].0
                && s.input_objects[others[j].0].data is Move,
    ensures
        ({
            let deleted = s.merge_coins(balance, others).0.deleted;
            let is_merged = exists|j: int| 0 <= j < others.len() && (#[trigger] others[j]).0 == id;
            &&& deleted.contains_key(id) <==> s.deleted.contains_key(id) || is_merged
            &&& is_merged ==> deleted[id] == (
                s.input_objects[id].data->Move_0.version,
                DeleteKind::Normal,
            )
            &&& !is_merged ==> deleted[id] == s.deleted[id]
        }),
    decreases others.len(),
{
    if others.len() > 0 {
        let rest = others.drop_last();
        assert forall|j: int| 0 <= j < rest.len() implies s.input_objects[(
        #[trigger] rest[j]).0].id() == rest[j].0 && s.input_objects[rest[j].0].data is Move by {
            assert(rest[j] == others[j]);
        }
        lemma_merge_deletes(s, balance, rest, id);
        let last = others[others.len() - 1];
        assert(s.input_objects[last.0].id() == last.0);
        if exists|j: int| 0 <= j < others.len() && (#[trigger] others[j]).0 == id {
            let j = choose|j: int| 0 <= j < others.len() && (#[trigger] others[j]).0 == id;
            if j < rest.len() {
                assert(rest[j].0 == id);
            }
        }
        if exists|j: int| 0 <= j < rest.len() && (#[trigger] rest[j]).0 == id {
            let j = choose|j: int| 0 <= j < rest.len() && (#[trigger] rest[j]).0 == id;
            assert(others[j].0 == id);
        }
        if last.0 == id {
            assert(others[others.len() - 1].0 == id);
        }
    }
}

} // verus!

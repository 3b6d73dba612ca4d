use crate::coin::Coin;
use crate::error::ExecutionError;
use crate::object::{Object, ObjectView};
use vstd::prelude::*;

verus! {

/// One hundred percent of the storage rebate, in the unit of the rebate rate.
pub const BASIS_POINTS: u64 = 10000;

/// Half of one hundred percent: what integer division adds to round to the nearest.
pub const HALF_BASIS_POINTS: u64 = 5000;

/// A step of the computation cost: whoever uses up to `max` units pays for `cost` units.
#[derive(Clone, Copy, Debug, PartialEq, Eq, Structural)]
pub struct ComputationBucket {
    pub max: u64,
    pub cost: u64,
}

/// What a transaction paid for gas.
#[derive(Clone, Copy, Debug, PartialEq, Eq, Structural)]
pub struct GasCostSummary {
    /// What the computation cost.
    pub computation_cost: u64,
    /// What the storage of all created and changed objects cost.
    pub storage_cost: u64,
    /// The rebates of all deleted and changed objects, as they were before the transaction.
    pub storage_rebate: u64,
}

/// The meter of a transaction.
#[derive(Debug, PartialEq, Eq)]
pub struct SuiGasStatus {
    /// Whether the transaction pays at all. System transactions do not.
    pub charge: bool,
    /// What the transaction may cost at most.
    pub gas_budget: u64,
    /// The price of one unit of computation.
    pub gas_price: u64,
    /// The units of computation that were used.
    pub computation_units: u64,
    /// The steps of the computation cost, the cheapest first.
    pub computation_buckets: Vec<ComputationBucket>,
    /// The price of the storage of one byte.
    pub storage_gas_price: u64,
    pub computation_cost: u64,
    pub storage_cost: u64,
    pub storage_rebate: u64,
    /// The rebates of the objects that a transaction changed or deleted without paying.
    pub unmetered_storage_rebate: u64,
}

/// The portion of `rebate` that goes to the sender: `rate` basis points of it, rounded to the
/// nearest.
pub open spec fn rebate_for_sender(rebate: u64, rate: u64) -> int {
    (rebate * rate + HALF_BASIS_POINTS) / BASIS_POINTS as int
}

/// The units that `units` units of computation are paid as: the cost of the first step that covers
/// them, that of the last step where none does, and the units themselves where there is no step.
pub open spec fn bucket_cost(buckets: Seq<ComputationBucket>, units: u64) -> u64
    decreases buckets.len(),
{
    if buckets.len() == 0 {
        units
    } else if buckets[0].max >= units || buckets.len() == 1 {
        buckets[0].cost
    } else {
        bucket_cost(buckets.drop_first(), units)
    }
}

impl GasCostSummary {
    pub open spec fn spec_gas_used(self) -> int {
        self.computation_cost + self.storage_cost
    }

    /// What the transaction cost before any rebate.
    pub fn gas_used(&self) -> (used: u64)
        requires
            self.spec_gas_used() <= u64::MAX,
        ensures
            used == self.spec_gas_used(),
    {
        self.computation_cost + self.storage_cost
    }

    /// The portion of the storage rebate that goes to the sender.
    pub fn sender_rebate(&self, storage_rebate_rate: u64) -> (rebate: u64)
        requires
            storage_rebate_rate <= BASIS_POINTS,
        ensures
            rebate == rebate_for_sender(self.storage_rebate, storage_rebate_rate),
            rebate <= self.storage_rebate,
    {
        let whole: u128 = self.storage_rebate as u128;
        let rate: u128 = storage_rebate_rate as u128;
        assert(whole * rate <= whole * 10000) by (nonlinear_arith)
            requires
                rate <= 10000,
                0 <= whole,
        ;
        assert(0 <= whole * rate) by (nonlinear_arith)
            requires
                0 <= rate,
                0 <= whole,
        ;
        let scaled: u128 = whole * rate + HALF_BASIS_POINTS as u128;
        let rounded: u128 = scaled / (BASIS_POINTS as u128);
        assert(rounded <= whole) by (nonlinear_arith)
            requires
                scaled <= whole * 10000 + 5000,
                rounded == scaled / 10000,
        ;
        rounded as u64
    }

    /// The portion of the storage rebate that flows back into the storage fund: what does not go to
    /// the sender.
    pub fn storage_fund_rebate_inflow(&self, storage_rebate_rate: u64) -> (inflow: u64)
        requires
            storage_rebate_rate <= BASIS_POINTS,
        ensures
            inflow == self.storage_rebate - rebate_for_sender(
                self.storage_rebate,
                storage_rebate_rate,
            ),
    {
        self.storage_rebate - self.sender_rebate(storage_rebate_rate)
    }
}

impl Default for GasCostSummary {
    fn default() -> (summary: Self)
        ensures
            summary == (GasCostSummary { computation_cost: 0, storage_cost: 0, storage_rebate: 0 }),
    {
        GasCostSummary { computation_cost: 0, storage_cost: 0, storage_rebate: 0 }
    }
}

impl SuiGasStatus {
    /// Whether the cost is within the budget.
    pub open spec fn wf(self) -> bool {
        self.charge ==> self.computation_cost + self.storage_cost <= self.gas_budget
    }

    pub open spec fn spec_summary(self) -> GasCostSummary {
        GasCostSummary {
            computation_cost: self.computation_cost,
            storage_cost: self.storage_cost,
            storage_rebate: self.storage_rebate,
        }
    }

    /// The rebates that were counted so far.
    pub open spec fn counted_rebate(self) -> u64 {
        if self.charge {
            self.storage_rebate
        } else {
            self.unmetered_storage_rebate
        }
    }

    /// The meter after the computation cost was rounded up to a step.
    pub open spec fn bucketized(self) -> SuiGasStatus {
        let cost = bucket_cost(self.computation_buckets@, self.computation_units)
            * self.gas_price;
        if !self.charge {
            self
        } else if self.gas_budget <= cost {
            SuiGasStatus { computation_cost: self.gas_budget, ..self }
        } else {
            SuiGasStatus { computation_cost: cost as u64, ..self }
        }
    }

    /// Whether the computation alone uses up the budget.
    pub open spec fn computation_exceeds_budget(self) -> bool {
        self.charge && self.gas_budget <= bucket_cost(
            self.computation_buckets@,
            self.computation_units,
        ) * self.gas_price
    }

    /// What the storage of `new_size` bytes costs.
    pub open spec fn price_of(self, new_size: nat) -> int {
        if self.charge {
            new_size * self.storage_gas_price
        } else {
            0
        }
    }

    /// Whether the budget covers the storage of `new_size` more bytes.
    pub open spec fn affords(self, new_size: nat) -> bool {
        self.charge ==> self.computation_cost + self.storage_cost + self.price_of(new_size)
            <= self.gas_budget
    }

    /// The meter after an object with the rebate `rebate` gave way to one of `new_size` bytes.
    pub open spec fn charged(self, new_size: nat, rebate: u64) -> SuiGasStatus {
        if !self.charge {
            SuiGasStatus {
                unmetered_storage_rebate: (self.unmetered_storage_rebate + rebate) as u64,
                ..self
            }
        } else if !self.affords(new_size) {
            self
        } else {
            SuiGasStatus {
                storage_cost: (self.storage_cost + self.price_of(new_size)) as u64,
                storage_rebate: (self.storage_rebate + rebate) as u64,
                ..self
            }
        }
    }

    /// The meter with no storage cost and no rebate.
    pub open spec fn without_storage(self) -> SuiGasStatus {
        SuiGasStatus {
            storage_cost: 0,
            storage_rebate: 0,
            unmetered_storage_rebate: 0,
            ..self
        }
    }

    /// The rebates that were counted so far.
    pub fn storage_rebate(&self) -> (rebate: u64)
        ensures
            rebate == self.storage_rebate,
    {
        self.storage_rebate
    }

    /// The storage cost so far.
    pub fn storage_gas_units(&self) -> (units: u64)
        ensures
            units == self.storage_cost,
    {
        self.storage_cost
    }

    /// What the transaction paid so far.
    pub fn summary(&self) -> (summary: GasCostSummary)
        ensures
            summary == self.spec_summary(),
    {
        GasCostSummary {
            computation_cost: self.computation_cost,
            storage_cost: self.storage_cost,
            storage_rebate: self.storage_rebate,
        }
    }

    /// Rounds the computation cost up to a step. A cost that reaches the budget is cut to the
    /// budget, and is an error.
    pub fn bucketize_computation(&mut self) -> (result: Result<(), ExecutionError>)
        requires
            old(self).storage_cost == 0,
        ensures
            *final(self) == old(self).bucketized(),
            final(self).wf(),
            result is Err <==> old(self).computation_exceeds_budget(),
            result matches Err(e) ==> e == ExecutionError::InsufficientGas,
    {
        if !self.charge {
            return Ok(());
        }
        let units: u64 = get_bucket_cost(&self.computation_buckets, self.computation_units);
        proof {
            lemma_product_fits(units, self.gas_price);
        }
        let cost: u128 = units as u128 * self.gas_price as u128;
        if self.gas_budget as u128 <= cost {
            self.computation_cost = self.gas_budget;
            Err(ExecutionError::InsufficientGas)
        } else {
            self.computation_cost = cost as u64;
            Ok(())
        }
    }

    /// Counts the rebate of an object that is changed or deleted, and charges for the storage of
    /// the `new_size` bytes that come in its place. Gives what that storage costs. Where the budget
    /// does not cover it, nothing is counted.
    pub fn charge_storage_mutation(&mut self, new_size: usize, storage_rebate: u64) -> (result:
        Result<u64, ExecutionError>)
        requires
            old(self).wf(),
            old(self).counted_rebate() + storage_rebate <= u64::MAX,
        ensures
            *final(self) == old(self).charged(new_size as nat, storage_rebate),
            final(self).wf(),
            result is Ok <==> old(self).affords(new_size as nat),
            result matches Ok(cost) ==> cost == old(self).price_of(new_size as nat),
            result matches Err(e) ==> e == ExecutionError::InsufficientGas,
    {
        if !self.charge {
            self.unmetered_storage_rebate = self.unmetered_storage_rebate + storage_rebate;
            return Ok(0);
        }
        proof {
            lemma_product_fits(new_size as u64, self.storage_gas_price);
        }
        let cost: u128 = new_size as u128 * self.storage_gas_price as u128;
        let left: u64 = self.gas_budget - self.computation_cost - self.storage_cost;
        if cost > left as u128 {
            return Err(ExecutionError::InsufficientGas);
        }
        self.storage_cost = self.storage_cost + cost as u64;
        self.storage_rebate = self.storage_rebate + storage_rebate;
        Ok(cost as u64)
    }

    /// Forgets every storage cost and rebate.
    pub fn reset_storage_cost_and_rebate(&mut self)
        ensures
            *final(self) == old(self).without_storage(),
    {
        self.storage_cost = 0;
        self.storage_rebate = 0;
        self.unmetered_storage_rebate = 0;
    }
}

proof fn lemma_product_fits(a: u64, b: u64)
    ensures
        0 <= a * b <= 0xffff_ffff_ffff_fffe_0000_0000_0000_0001,
{
    assert(a * b <= 0xffff_ffff_ffff_ffff * 0xffff_ffff_ffff_ffff && 0 <= a * b)
        by (nonlinear_arith)
        requires
            0 <= a <= 0xffff_ffff_ffff_ffff,
            0 <= b <= 0xffff_ffff_ffff_ffff,
    ;
}

/// The units that `units` units of computation are paid as.
fn get_bucket_cost(buckets: &Vec<ComputationBucket>, units: u64) -> (cost: u64)
    ensures
        cost == bucket_cost(buckets@, units),
{
    let mut i: usize = 0;
    assert(buckets@.skip(0) =~= buckets@);
    while i < buckets.len()
        invariant
            i <= buckets@.len(),
            bucket_cost(buckets@, units) == bucket_cost(buckets@.skip(i as int), units),
            i == buckets@.len() ==> i == 0,
        decreases buckets@.len() - i,
    {
        assert(buckets@.skip(i as int).drop_first() =~= buckets@.skip(i + 1));
        if buckets[i].max >= units || i == buckets.len() - 1 {
            return buckets[i].cost;
        }
        i = i + 1;
    }
    units
}

/// The balance of a gas coin after it paid `deduct_amount` and got `rebate_amount` back.
pub open spec fn balance_after_gas(gas_object: ObjectView, deduct: int, rebate: int) -> int {
    gas_object.gas_balance() - deduct + rebate
}

/// Takes `deduct_amount` out of the balance of a gas coin, and puts `rebate_amount` in.
pub fn deduct_gas(gas_object: &mut Object, deduct_amount: u64, rebate_amount: u64)
    requires
        old(gas_object)@.is_gas_coin(),
        old(gas_object)@.gas_balance() >= deduct_amount,
        balance_after_gas(old(gas_object)@, deduct_amount as int, rebate_amount as int) <= u64::MAX,
    ensures
        final(gas_object)@ == old(gas_object)@.with_gas_balance(
            balance_after_gas(
                old(gas_object)@,
                deduct_amount as int,
                rebate_amount as int,
            ) as u64,
        ),
{
    let ghost before = gas_object@;
    if let Some(coin) = gas_object.as_gas_coin() {
        let paid = Coin { id: coin.id, balance: coin.balance - deduct_amount + rebate_amount };
        gas_object.set_gas_coin(&paid);
    }
}

} // verus!

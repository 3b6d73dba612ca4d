use crate::base_types::{ObjectID, ObjectRef};
use crate::coin::lemma_coin_balance_fits;
use crate::error::ExecutionError;
use crate::gas::{balance_after_gas, deduct_gas, rebate_for_sender, SuiGasStatus, BASIS_POINTS};
use crate::object::{lemma_with_gas_balance, ObjectView};
use crate::storage::{ObjectStore, WriteKind};
use crate::temporary_store::charge::measurable;
use crate::temporary_store::model::StoreView;
use crate::temporary_store::TemporaryStore;
use vstd::prelude::*;

verus! {

/// A store and a meter in the course of charging for gas, and the first error so far.
pub struct Settlement {
    pub store: StoreView,
    pub gas: SuiGasStatus,
    pub error: Option<ExecutionError>,
}

/// The error of a result, if it is one.
pub open spec fn error_of<T>(result: Result<T, ExecutionError>) -> Option<ExecutionError> {
    match result {
        Ok(_) => None,
        Err(error) => Some(error),
    }
}

/// The first of two errors.
pub open spec fn first_error(
    a: Option<ExecutionError>,
    b: Option<ExecutionError>,
) -> Option<ExecutionError> {
    if a is Some {
        a
    } else {
        b
    }
}

impl StoreView {
    /// The store as it was when execution began: nothing is written, deleted or emitted but for
    /// what smashing `gas` does.
    pub open spec fn reset(self, gas: Seq<ObjectRef>) -> StoreView {
        self.drop_writes().smash_gas(gas)
    }

    /// Whether the store can be reset: `gas` can be smashed.
    pub open spec fn may_reset(self, gas: Seq<ObjectRef>) -> bool {
        self.drop_writes().may_smash(gas) && self.drop_writes().smash_result(gas) is Ok
    }
}

impl Settlement {
    /// The store and the meter after both were reset.
    pub open spec fn reset(self, gas: Seq<ObjectRef>) -> Settlement {
        Settlement {
            store: self.store.reset(gas),
            gas: self.gas.without_storage(),
            error: self.error,
        }
    }

    /// After the computation cost was rounded up. If execution or that failed, everything that was
    /// written is dropped.
    pub open spec fn after_computation(self, gas: Seq<ObjectRef>) -> Settlement {
        let rounded = Settlement {
            gas: self.gas.bucketized(),
            error: first_error(
                self.error,
                if self.gas.computation_exceeds_budget() {
                    Some(ExecutionError::InsufficientGas)
                } else {
                    None
                },
            ),
            ..self
        };
        if rounded.error is Some {
            rounded.reset(gas)
        } else {
            rounded
        }
    }

    /// What charging for storage runs into.
    pub open spec fn storage_error<S: ObjectStore>(
        self,
        backing: S,
        gas_object_id: Option<ObjectID>,
    ) -> Option<ExecutionError> {
        self.store.prepared(gas_object_id).storage_charge(backing, self.gas).failed
    }

    /// After storage was charged for once.
    pub open spec fn after_storage<S: ObjectStore>(
        self,
        backing: S,
        gas_object_id: Option<ObjectID>,
    ) -> Settlement {
        Settlement {
            store: self.store.charge_storage(backing, self.gas, gas_object_id),
            gas: self.store.prepared(gas_object_id).storage_charge(backing, self.gas).gas,
            error: first_error(self.error, self.storage_error(backing, gas_object_id)),
        }
    }

    /// After everything is charged for: the computation and the storage, and where the budget does
    /// not cover the storage, the storage of nothing but the gas coins.
    pub open spec fn charged<S: ObjectStore>(
        self,
        backing: S,
        gas_object_id: Option<ObjectID>,
        gas: Seq<ObjectRef>,
    ) -> Settlement {
        let computed = self.after_computation(gas);
        let stored = computed.after_storage(backing, gas_object_id);
        if computed.storage_error(backing, gas_object_id) is Some {
            stored.reset(gas).after_storage(backing, gas_object_id)
        } else {
            stored
        }
    }

    /// Whether gas can be charged for: nothing was charged for storage yet; wherever a reset is
    /// needed, the coins that pay can be smashed, as they were before execution; and storage can be
    /// charged for as often as that is done.
    pub open spec fn may_charge<S: ObjectStore>(
        self,
        backing: S,
        gas_object_id: Option<ObjectID>,
        gas: Seq<ObjectRef>,
    ) -> bool {
        let computed = self.after_computation(gas);
        let stored = computed.after_storage(backing, gas_object_id);
        &&& self.gas.storage_rebate == 0
        &&& self.gas.storage_cost == 0
        &&& computed.error is Some ==> self.store.may_reset(gas)
        &&& computed.store.may_charge_storage(backing, computed.gas, gas_object_id)
        &&& computed.storage_error(backing, gas_object_id) is Some ==> {
            &&& stored.store.may_reset(gas)
            &&& stored.reset(gas).store.may_charge_storage(
                backing,
                stored.reset(gas).gas,
                gas_object_id,
            )
        }
    }

    /// The gas coin after it paid for everything and got the sender's part of the rebates.
    pub open spec fn paid_gas_object(self, id: ObjectID) -> ObjectView {
        let summary = self.gas.spec_summary();
        let coin = self.store.read_object(id)->0;
        coin.with_gas_balance(
            balance_after_gas(
                coin,
                summary.spec_gas_used(),
                rebate_for_sender(summary.storage_rebate, self.store.storage_rebate_rate),
            ) as u64,
        )
    }

    /// Whether the gas coin can pay for everything: it is a coin, its balance covers the cost, and
    /// what is left after the rebate fits.
    pub open spec fn may_pay(self, id: ObjectID) -> bool {
        let summary = self.gas.spec_summary();
        let coin = self.store.read_object(id)->0;
        &&& self.store.storage_rebate_rate <= BASIS_POINTS
        &&& self.store.may_read(id)
        &&& self.store.read_object(id) is Some
        &&& coin.is_gas_coin()
        &&& summary.spec_gas_used() <= coin.gas_balance()
        &&& balance_after_gas(
            coin,
            summary.spec_gas_used(),
            rebate_for_sender(summary.storage_rebate, self.store.storage_rebate_rate),
        ) <= u64::MAX
    }

    /// The store after the gas coin paid, if there is one.
    pub open spec fn paid(self, gas_object_id: Option<ObjectID>) -> StoreView {
        match gas_object_id {
            Some(id) => StoreView {
                gas_charged: Some((id, self.gas.spec_summary())),
                ..self.store.write_object(self.paid_gas_object(id), WriteKind::Mutate)
            },
            None => self.store,
        }
    }
}

impl<S> TemporaryStore<S> {
    /// Forgets everything that was written, deleted or emitted, and every storage cost and rebate,
    /// and smashes the gas coins again. The store is then as it was when execution began.
    fn reset(&mut self, gas: &[ObjectRef], gas_status: &mut SuiGasStatus)
        requires
            old(self).wf(),
            old(self)@.may_reset(gas@),
        ensures
            final(self).wf(),
            final(self).backing() == old(self).backing(),
            final(self)@ == old(self)@.reset(gas@),
            *final(gas_status) == old(gas_status).without_storage(),
    {
        self.drop_writes();
        gas_status.reset_storage_cost_and_rebate();
        let _ = self.smash_gas(gas);
    }
}

impl<S: ObjectStore> TemporaryStore<S> {
    /// Charges for gas.
    ///
    /// The computation cost is rounded up; storage is charged for, and every written object gets the
    /// price of its storage as its storage rebate; then the gas coin pays for both, and gets the
    /// sender's part of the rebates. There is no gas coin if this is a system transaction.
    ///
    /// If execution failed, everything that it wrote is dropped before storage is charged for. If
    /// the budget does not cover the storage, everything is dropped too, storage is charged for
    /// once more, and execution has failed.
    pub fn charge_gas<T>(
        &mut self,
        gas_object_id: Option<ObjectID>,
        gas_status: &mut SuiGasStatus,
        execution_result: &mut Result<T, ExecutionError>,
        gas: &[ObjectRef],
    )
        requires
            old(self).wf(),
            measurable(old(self).backing()),
            ({
                let before = Settlement {
                    store: old(self)@,
                    gas: *old(gas_status),
                    error: error_of(*old(execution_result)),
                };
                &&& before.may_charge(old(self).backing(), gas_object_id, gas@)
                &&& gas_object_id matches Some(id) ==> before.charged(
                    old(self).backing(),
                    gas_object_id,
                    gas@,
                ).may_pay(id)
            }),
        ensures
            final(self).wf(),
            final(self).backing() == old(self).backing(),
            ({
                let before = Settlement {
                    store: old(self)@,
                    gas: *old(gas_status),
                    error: error_of(*old(execution_result)),
                };
                let after = before.charged(old(self).backing(), gas_object_id, gas@);
                &&& final(self)@ == after.paid(gas_object_id)
                &&& *final(gas_status) == after.gas
                &&& after.error is None ==> *final(execution_result) == *old(execution_result)
                &&& after.error matches Some(error) ==> *final(execution_result) == Err::<
                    T,
                    ExecutionError,
                >(error)
            }),
    {
        let ghost before = Settlement {
            store: self@,
            gas: *gas_status,
            error: error_of(*execution_result),
        };
        let ghost backing = self.backing();
        let ghost computed = before.after_computation(gas@);
        self.settle_computation(gas_status, execution_result, gas);
        assert(error_of(*execution_result) == computed.error);
        if let Err(error) = self.charge_gas_for_storage_changes(gas_status, gas_object_id) {
            let ghost stored = computed.after_storage(backing, gas_object_id);
            assert(self@ == stored.store && *gas_status == stored.gas);
            self.reset(gas, gas_status);
            let _ = self.charge_gas_for_storage_changes(gas_status, gas_object_id);
            if execution_result.is_ok() {
                *execution_result = Err(error);
            }
        }
        let ghost after = before.charged(backing, gas_object_id, gas@);
        assert(self@ == after.store && *gas_status == after.gas);
        assert(error_of(*execution_result) == after.error);
        if let Some(id) = gas_object_id {
            self.pay_for_gas(id, gas_status);
        }
    }

    /// Rounds the computation cost up. If execution or that failed, drops everything that was
    /// written.
    fn settle_computation<T>(
        &mut self,
        gas_status: &mut SuiGasStatus,
        execution_result: &mut Result<T, ExecutionError>,
        gas: &[ObjectRef],
    )
        requires
            old(self).wf(),
            old(gas_status).storage_cost == 0,
            (Settlement {
                store: old(self)@,
                gas: *old(gas_status),
                error: error_of(*old(execution_result)),
            }).after_computation(gas@).error is Some ==> old(self)@.may_reset(gas@),
        ensures
            final(self).wf(),
            final(self).backing() == old(self).backing(),
            ({
                let computed = Settlement {
                    store: old(self)@,
                    gas: *old(gas_status),
                    error: error_of(*old(execution_result)),
                }.after_computation(gas@);
                &&& final(self)@ == computed.store
                &&& *final(gas_status) == computed.gas
                &&& computed.error is None ==> *final(execution_result) == *old(execution_result)
                &&& computed.error matches Some(error) ==> *final(execution_result) == Err::<
                    T,
                    ExecutionError,
                >(error)
            }),
    {
        if let Err(error) = gas_status.bucketize_computation() {
            if execution_result.is_ok() {
                *execution_result = Err(error);
            }
        }
        if execution_result.is_err() {
            self.reset(gas, gas_status);
        }
    }
}

impl<S> TemporaryStore<S> {
    /// Takes the cost out of the balance of the gas coin, and puts the sender's part of the rebates
    /// in.
    fn pay_for_gas(&mut self, id: ObjectID, gas_status: &SuiGasStatus)
        requires
            old(self).wf(),
            (Settlement { store: old(self)@, gas: *gas_status, error: None }).may_pay(id),
        ensures
            final(self).wf(),
            final(self).backing() == old(self).backing(),
            final(self)@ == (Settlement {
                store: old(self)@,
                gas: *gas_status,
                error: None,
            }).paid(Some(id)),
    {
        let cost_summary = gas_status.summary();
        if let Some(gas_object) = self.read_object(&id) {
            let mut gas_object = gas_object.clone();
            let ghost before = gas_object@;
            proof {
                lemma_coin_balance_fits(before.data->Move_0.contents);
            }
            let gas_used: u64 = cost_summary.gas_used();
            let sender_rebate: u64 = cost_summary.sender_rebate(self.storage_rebate_rate);
            proof {
                lemma_with_gas_balance(
                    before,
                    balance_after_gas(before, gas_used as int, sender_rebate as int) as u64,
                );
            }
            deduct_gas(&mut gas_object, gas_used, sender_rebate);
            self.write_object(gas_object, WriteKind::Mutate);
        }
        self.gas_charged = Some((id, cost_summary));
    }
}

} // verus!

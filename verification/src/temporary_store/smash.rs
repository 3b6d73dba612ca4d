use crate::base_types::{ObjectID, ObjectRef};
use crate::coin::{is_coin, Coin};
use crate::error::{ExecutionError, InvariantViolation};
use crate::object::{lemma_with_gas_balance, Data, DataView, Object, ObjectView};
use crate::storage::{DeleteKind, WriteKind};
use crate::temporary_store::model::StoreView;
use crate::temporary_store::TemporaryStore;
use vstd::prelude::*;

verus! {

broadcast use vstd::laws_cmp::group_laws_cmp;

/// What keeps an object from being used to pay for gas.
pub open spec fn gas_fault(object: ObjectView) -> Option<InvariantViolation> {
    match object.data {
        DataView::Move(m) => if !(m.type_ is GasCoin) {
            Some(InvariantViolation::NonGasCoinAsGas)
        } else if !is_coin(m.contents) {
            Some(InvariantViolation::GasCoinEncoding)
        } else {
            None
        },
        DataView::Package(_) => Some(InvariantViolation::NonGasCoinAsGas),
    }
}

/// The coins that are merged into the first one, in the order in which that happens: the last one
/// first, then those in between.
pub open spec fn merged_coins(gas: Seq<ObjectRef>) -> Seq<ObjectRef> {
    gas.update(0, gas.last()).drop_last()
}

impl StoreView {
    /// The fault of the first of the inputs `gas` that has one.
    pub open spec fn first_gas_fault(self, gas: Seq<ObjectRef>) -> Option<InvariantViolation>
        decreases gas.len(),
    {
        if gas.len() == 0 {
            None
        } else {
            match self.first_gas_fault(gas.drop_last()) {
                Some(fault) => Some(fault),
                None => gas_fault(self.input_objects[gas.last().0]),
            }
        }
    }

    /// The balance `balance` after the balances of the coins `others` were added one by one, and
    /// the store after each of them was deleted. Where a sum does not fit, there is no balance, and
    /// the coins from there on are not deleted.
    pub open spec fn merge_coins(self, balance: nat, others: Seq<ObjectRef>) -> (
        StoreView,
        Option<nat>,
    )
        decreases others.len(),
    {
        if others.len() == 0 {
            (self, Some(balance))
        } else {
            let (store, merged) = self.merge_coins(balance, others.drop_last());
            let coin = self.input_objects[others.last().0];
            match merged {
                Some(sum) => if sum + coin.gas_balance() <= u64::MAX {
                    (
                        store.delete_object(coin.id(), coin.version(), DeleteKind::Normal),
                        Some(sum + coin.gas_balance()),
                    )
                } else {
                    (store, None)
                },
                None => (store, None),
            }
        }
    }

    /// The merger of all the coins of `gas` into the first one.
    pub open spec fn merge_gas(self, gas: Seq<ObjectRef>) -> (StoreView, Option<nat>) {
        self.merge_coins(self.input_objects[gas[0].0].gas_balance(), merged_coins(gas))
    }

    /// Whether `gas` may be smashed: there is a coin; and where there are more, they are inputs, up
    /// to the first with a fault, those that are merged into the first were not written, and the
    /// first is not among what was deleted by then.
    pub open spec fn may_smash(self, gas: Seq<ObjectRef>) -> bool {
        let balance = self.input_objects[gas[0].0].gas_balance();
        let others = merged_coins(gas);
        &&& gas.len() >= 1
        &&& gas.len() > 1 ==> {
            &&& forall|i: int|
                0 <= i < gas.len() && self.first_gas_fault(gas.take(i)) is None
                    ==> self.input_objects.contains_key((#[trigger] gas[i]).0)
            &&& self.first_gas_fault(gas) is None ==> {
                &&& forall|i: int|
                    0 <= i < others.len() && self.merge_coins(balance, others.take(i + 1)).1 is Some
                        ==> !self.written.contains_key((#[trigger] others[i]).0)
                &&& self.merge_gas(gas).1 is Some ==> !self.merge_gas(
                    gas,
                ).0.deleted.contains_key(gas[0].0)
            }
        }
    }

    /// What smashing `gas` comes to.
    pub open spec fn smash_result(self, gas: Seq<ObjectRef>) -> Result<ObjectRef, ExecutionError> {
        if gas.len() <= 1 {
            Ok(gas[0])
        } else if self.first_gas_fault(gas) is Some {
            Err(ExecutionError::InvariantViolation(self.first_gas_fault(gas)->0))
        } else if self.merge_gas(gas).1 is None {
            Err(ExecutionError::CoinBalanceOverflow)
        } else {
            Ok(gas[0])
        }
    }

    /// The store after `gas` was smashed: with more than one coin, the first one holds the balances
    /// of all and the others are deleted.
    pub open spec fn smash_gas(self, gas: Seq<ObjectRef>) -> StoreView {
        if gas.len() <= 1 || self.first_gas_fault(gas) is Some {
            self
        } else {
            let (store, merged) = self.merge_gas(gas);
            match merged {
                None => store,
                Some(sum) => store.write_object(
                    self.input_objects[gas[0].0].with_gas_balance(sum as u64),
                    WriteKind::Mutate,
                ),
            }
        }
    }
}

/// None of the coins has a fault if no first one has.
pub proof fn lemma_no_gas_fault(s: StoreView, gas: Seq<ObjectRef>, i: int)
    requires
        s.first_gas_fault(gas) is None,
        0 <= i < gas.len(),
    ensures
        gas_fault(s.input_objects[gas[i].0]) is None,
    decreases gas.len(),
{
    if i < gas.len() - 1 {
        lemma_no_gas_fault(s, gas.drop_last(), i);
        assert(gas.drop_last()[i] == gas[i]);
    }
}

proof fn lemma_gas_fault_of_prefix(s: StoreView, gas: Seq<ObjectRef>, n: int)
    requires
        0 <= n <= gas.len(),
        s.first_gas_fault(gas.take(n)) is Some,
    ensures
        s.first_gas_fault(gas) == s.first_gas_fault(gas.take(n)),
    decreases gas.len() - n,
{
    if n < gas.len() {
        assert(gas.take(n + 1).drop_last() =~= gas.take(n));
        lemma_gas_fault_of_prefix(s, gas, n + 1);
    } else {
        assert(gas.take(n) =~= gas);
    }
}

/// Coins without a fault that may be smashed are inputs.
pub proof fn lemma_coins_are_inputs(s: StoreView, gas: Seq<ObjectRef>, i: int)
    requires
        s.may_smash(gas),
        s.first_gas_fault(gas) is None,
        gas.len() > 1,
        0 <= i < gas.len(),
    ensures
        s.input_objects.contains_key(gas[i].0),
{
    if s.first_gas_fault(gas.take(i)) is Some {
        lemma_gas_fault_of_prefix(s, gas, i);
    }
}

/// Merging coins leaves everything alone but what was deleted.
pub proof fn lemma_merge_frame(s: StoreView, balance: nat, others: Seq<ObjectRef>)
    ensures
        s.merge_coins(balance, others).0 == (StoreView {
            deleted: s.merge_coins(balance, others).0.deleted,
            ..s
        }),
    decreases others.len(),
{
    if others.len() > 0 {
        lemma_merge_frame(s, balance, others.drop_last());
    }
}

proof fn lemma_merge_stops(s: StoreView, balance: nat, others: Seq<ObjectRef>, n: int)
    requires
        0 <= n <= others.len(),
        s.merge_coins(balance, others.take(n)).1 is None,
    ensures
        s.merge_coins(balance, others) == s.merge_coins(balance, others.take(n)),
    decreases others.len() - n,
{
    if n < others.len() {
        assert(others.take(n + 1).drop_last() =~= others.take(n));
        lemma_merge_stops(s, balance, others, n + 1);
    } else {
        assert(others.take(n) =~= others);
    }
}

impl<S> TemporaryStore<S> {
    /// Merges all the coins that pay for gas into the first one, and gives that one.
    pub fn smash_gas(&mut self, gas: &[ObjectRef]) -> (result: Result<ObjectRef, ExecutionError>)
        requires
            old(self).wf(),
            old(self)@.may_smash(gas@),
        ensures
            final(self).wf(),
            final(self).backing() == old(self).backing(),
            final(self)@ == old(self)@.smash_gas(gas@),
            result == old(self)@.smash_result(gas@),
    {
        if gas.len() <= 1 {
            return Ok(gas[0]);
        }
        let mut gas_coins: Vec<(Object, Coin)> = Vec::new();
        let mut i: usize = 0;
        while i < gas.len()
            invariant
                i <= gas@.len(),
                gas@.len() > 1,
                *self == *old(self),
                self.wf(),
                self@.may_smash(gas@),
                gas_coins@.len() == i,
                self@.first_gas_fault(gas@.take(i as int)) is None,
                forall|j: int|
                    #![trigger gas_coins@[j]]
                    0 <= j < i ==> {
                        &&& gas_coins@[j].0@ == self@.input_objects[gas@[j].0]
                        &&& gas_coins@[j].0@.is_gas_coin()
                        &&& gas_coins@[j].1.balance == gas_coins@[j].0@.gas_balance()
                        &&& gas_coins@[j].1.id@ == gas_coins@[j].0@.data->Move_0.contents.take(32)
                    },
            decreases gas@.len() - i,
        {
            let id: ObjectID = gas[i].0;
            assert(self@.input_objects.contains_key(gas@[i as int].0));
            proof {
                assert(gas@.take(i + 1).drop_last() =~= gas@.take(i as int));
                if gas_fault(self@.input_objects[id]) is Some {
                    lemma_gas_fault_of_prefix(self@, gas@, i + 1);
                }
            }
            if let Some(object) = self.input_objects.get(&id) {
                let object = object.clone();
                let coin = match &object.data {
                    Data::Move(move_object) => {
                        if !move_object.type_.is_gas_coin() {
                            return Err(
                                ExecutionError::InvariantViolation(
                                    InvariantViolation::NonGasCoinAsGas,
                                ),
                            );
                        }
                        match Coin::from_bcs_bytes(&move_object.contents) {
                            Ok(coin) => coin,
                            Err(_) => {
                                return Err(
                                    ExecutionError::InvariantViolation(
                                        InvariantViolation::GasCoinEncoding,
                                    ),
                                );
                            },
                        }
                    },
                    Data::Package(_) => {
                        return Err(
                            ExecutionError::InvariantViolation(InvariantViolation::NonGasCoinAsGas),
                        );
                    },
                };
                gas_coins.push((object, coin));
            }
            i = i + 1;
        }
        assert(gas@.take(gas@.len() as int) =~= gas@);
        let ghost start = self@;
        let ghost others = merged_coins(gas@);
        let (gas_object, gas_coin) = gas_coins.swap_remove(0);
        let mut gas_object = gas_object;
        let mut gas_coin = gas_coin;
        let ghost balance = gas_coin.balance as nat;
        let ghost first = gas_object@;
        assert(others.take(0) =~= Seq::<ObjectRef>::empty());
        let mut k: usize = 0;
        while k < gas_coins.len()
            invariant
                k <= gas_coins@.len(),
                others == merged_coins(gas@),
                gas@.len() > 1,
                others.len() == gas_coins@.len(),
                self.wf(),
                self.backing() == old(self).backing(),
                start == old(self)@,
                start.wf(),
                balance == start.input_objects[gas@[0].0].gas_balance(),
                self@ == start.merge_coins(balance, others.take(k as int)).0,
                start.merge_coins(balance, others.take(k as int)).1 == Some(
                    gas_coin.balance as nat,
                ),
                start.first_gas_fault(gas@) is None,
                start.may_smash(gas@),
                gas_coin.id@ == first.data->Move_0.contents.take(32),
                forall|j: int|
                    #![trigger gas_coins@[j]]
                    0 <= j < gas_coins@.len() ==> {
                        &&& gas_coins@[j].0@ == start.input_objects[others[j].0]
                        &&& gas_coins@[j].0@.is_gas_coin()
                        &&& gas_coins@[j].1.balance == gas_coins@[j].0@.gas_balance()
                    },
            decreases gas_coins@.len() - k,
        {
            let ghost prefix = others.take(k as int);
            proof {
                assert(others.take(k + 1).drop_last() =~= prefix);
                assert(others[k as int] == gas@[if k == 0 { gas@.len() - 1 } else { k as int }]);
                lemma_merge_frame(start, balance, prefix);
                lemma_coins_are_inputs(
                    start,
                    gas@,
                    if k == 0 {
                        gas@.len() - 1
                    } else {
                        k as int
                    },
                );
            }
            match gas_coin.add(gas_coins[k].1.balance) {
                Ok(()) => {},
                Err(error) => {
                    proof {
                        lemma_merge_stops(start, balance, others, k + 1);
                    }
                    return Err(error);
                },
            }
            let id: ObjectID = gas_coins[k].0.id();
            let version = gas_coins[k].0.version();
            self.delete_object(&id, version, DeleteKind::Normal);
            k = k + 1;
        }
        proof {
            assert(others.take(others.len() as int) =~= others);
            lemma_merge_frame(start, balance, others);
            lemma_coins_are_inputs(start, gas@, 0);
            lemma_with_gas_balance(first, gas_coin.balance);
        }
        gas_object.set_gas_coin(&gas_coin);
        self.write_object(gas_object, WriteKind::Mutate);
        Ok(gas[0])
    }
}

} // verus!

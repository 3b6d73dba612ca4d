use crate::base_types::ObjectRef;
use crate::object::Owner;
use vstd::prelude::*;

verus! {

/// The units of gas that publishing a package may use.
pub const PUBLISH_GAS_UNITS: u64 = 10000;

/// The check that a full node can build a transaction that publishes a package.
pub struct FullNodeBuildPublishTransactionTest;

/// The place of the first of the first `n` created objects that is immutable.
pub open spec fn first_immutable(created: Seq<(ObjectRef, Owner)>, n: nat) -> Option<int>
    decreases n,
{
    if n == 0 {
        None
    } else {
        match first_immutable(created, (n - 1) as nat) {
            Some(i) => Some(i),
            None => if created[n - 1].1 is Immutable {
                Some(n - 1)
            } else {
                None
            },
        }
    }
}

impl FullNodeBuildPublishTransactionTest {
    pub fn name(&self) -> (name: &'static str)
        ensures
            name@ == "FullNodeBuildPublishTransaction"@,
    {
        "FullNodeBuildPublishTransaction"
    }

    pub fn description(&self) -> (description: &'static str)
        ensures
            description@ == "Test building publish transaction via full node"@,
    {
        "Test building publish transaction via full node"
    }

    /// The budget of the transaction at a gas price.
    pub fn gas_budget(&self, gas_price: u64) -> (budget: u64)
        requires
            PUBLISH_GAS_UNITS * gas_price <= u64::MAX,
        ensures
            budget == PUBLISH_GAS_UNITS * gas_price,
    {
        PUBLISH_GAS_UNITS * gas_price
    }

    /// The package that the transaction published: the first created object that is immutable.
    pub fn published(&self, created: &[(ObjectRef, Owner)]) -> (package: Option<ObjectRef>)
        ensures
            match first_immutable(created@, created@.len()) {
                Some(i) => package == Some(created@[i].0),
                None => package is None,
            },
    {
        let mut i: usize = 0;
        while i < created.len()
            invariant
                i <= created@.len(),
                first_immutable(created@, i as nat) is None,
            decreases created@.len() - i,
        {
            if let Owner::Immutable = created[i].1 {
                proof {
                    lemma_first_immutable(created@, (i + 1) as nat, created@.len());
                }
                return Some(created[i].0);
            }
            i = i + 1;
        }
        None
    }
}

proof fn lemma_first_immutable(created: Seq<(ObjectRef, Owner)>, n: nat, m: nat)
    requires
        n <= m,
        first_immutable(created, n) is Some,
    ensures
        first_immutable(created, m) == first_immutable(created, n),
    decreases m,
{
    if n < m {
        lemma_first_immutable(created, n, (m - 1) as nat);
    }
}

} // verus!

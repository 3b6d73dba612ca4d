use crate::base_types::{ObjectID, ObjectRef, SequenceNumber, SUI_SYSTEM_STATE_OBJECT_ID};
use crate::coin::lemma_coin_balance_fits;
use crate::error::SuiResult;
use crate::gas::{balance_after_gas, rebate_for_sender, SuiGasStatus};
use crate::object::{lemma_with_gas_balance, DataView, MoveObjectView, ObjectView};
use crate::order::{ascending, lemma_ascending};
use crate::storage::{DeleteKind, ObjectStore, WriteKind};
use crate::sums::{
    lemma_sum_agrees, lemma_sum_differs_at, lemma_sum_insert, lemma_sum_prefix, sum_over,
};
use crate::temporary_store::charge::{same_prices, Charge};
use crate::temporary_store::conserve::{
    conservation_verdict, epoch_fees, epoch_rebates, lemma_tally_deleted, lemma_tally_written,
    sui_in, Tally,
};
use crate::temporary_store::laws::{
    law_rebate_is_split, law_reset_is_a_fresh_start, law_storage_charge_can_be_dropped,
};
use crate::temporary_store::model::StoreView;
use crate::temporary_store::settle::Settlement;
use crate::temporary_store::smash::{
    lemma_coins_are_inputs, lemma_merge_frame, lemma_no_gas_fault, merged_coins,
};
use vstd::prelude::*;

verus! {

/// The SUI in an object, without its storage rebate.
pub open spec fn held(
    object: ObjectView,
    balance: spec_fn(MoveObjectView) -> SuiResult<u64>,
) -> int {
    match object.data {
        DataView::Package(_) => 0,
        DataView::Move(m) => match sui_in(m, balance) {
            Ok(sui) => sui as int,
            Err(_) => 0,
        },
    }
}

impl StoreView {
    /// The SUI before the transaction in a written object, without its storage rebate.
    pub open spec fn written_held_before<S: ObjectStore>(
        self,
        store: S,
        balance: spec_fn(MoveObjectView) -> SuiResult<u64>,
    ) -> spec_fn(ObjectID) -> int {
        |id: ObjectID|
            if self.written_counts_as_input(id) {
                held(self.input_object(store, id), balance)
            } else {
                0
            }
    }

    /// The SUI before the transaction in a deleted object, without its storage rebate.
    pub open spec fn deleted_held_before<S: ObjectStore>(
        self,
        store: S,
        balance: spec_fn(MoveObjectView) -> SuiResult<u64>,
    ) -> spec_fn(ObjectID) -> int {
        |id: ObjectID|
            if self.deleted_counts_as_input(id) {
                held(self.input_object(store, id), balance)
            } else {
                0
            }
    }

    /// The SUI after the transaction in a written object, without its storage rebate.
    pub open spec fn written_held_after(
        self,
        balance: spec_fn(MoveObjectView) -> SuiResult<u64>,
    ) -> spec_fn(ObjectID) -> int {
        |id: ObjectID| held(self.written[id].0, balance)
    }

    /// The sum of the SUI in everything that was written or deleted, before the transaction and
    /// without storage rebates.
    pub open spec fn held_before<S: ObjectStore>(
        self,
        store: S,
        balance: spec_fn(MoveObjectView) -> SuiResult<u64>,
    ) -> int {
        sum_over(ascending(self.written.dom()), self.written_held_before(store, balance))
            + sum_over(ascending(self.deleted.dom()), self.deleted_held_before(store, balance))
    }

    /// The sum of the SUI in everything that was written, after the transaction and without storage
    /// rebates.
    pub open spec fn held_after(
        self,
        balance: spec_fn(MoveObjectView) -> SuiResult<u64>,
    ) -> int {
        sum_over(ascending(self.written.dom()), self.written_held_after(balance))
    }

    /// The storage rebate after the transaction of a written object.
    spec fn rebate_after(self) -> spec_fn(ObjectID) -> int {
        |id: ObjectID| self.written[id].0.storage_rebate as int
    }

    /// The storage rebate before the transaction of a written object.
    spec fn written_rebate_before<S: ObjectStore>(self, store: S) -> spec_fn(ObjectID) -> int {
        |id: ObjectID|
            if self.written_counts_as_input(id) {
                self.input_object(store, id).storage_rebate as int
            } else {
                0
            }
    }

    /// The storage rebate before the transaction of a deleted object.
    spec fn deleted_rebate_before<S: ObjectStore>(self, store: S) -> spec_fn(ObjectID) -> int {
        |id: ObjectID|
            if self.deleted_counts_as_input(id) {
                self.input_object(store, id).storage_rebate as int
            } else {
                0
            }
    }
}

proof fn lemma_written_totals<S: ObjectStore>(
    s: StoreView,
    store: S,
    balance: spec_fn(MoveObjectView) -> SuiResult<u64>,
    ids: Seq<ObjectID>,
)
    requires
        s.tally_written(store, balance, ids).failed is None,
    ensures
        sum_over(ids, s.written_input(store, balance)) == sum_over(
            ids,
            s.written_held_before(store, balance),
        ) + sum_over(ids, s.written_rebate_before(store)),
        sum_over(ids, s.written_output(balance)) == sum_over(ids, s.written_held_after(balance))
            + sum_over(ids, s.rebate_after()),
    decreases ids.len(),
{
    if ids.len() > 0 {
        lemma_written_totals(s, store, balance, ids.drop_last());
    }
}

proof fn lemma_deleted_totals<S: ObjectStore>(
    s: StoreView,
    store: S,
    balance: spec_fn(MoveObjectView) -> SuiResult<u64>,
    start: Tally,
    ids: Seq<ObjectID>,
)
    requires
        s.tally_deleted(store, balance, start, ids).failed is None,
    ensures
        start.failed is None,
        sum_over(ids, s.deleted_input(store, balance)) == sum_over(
            ids,
            s.deleted_held_before(store, balance),
        ) + sum_over(ids, s.deleted_rebate_before(store)),
    decreases ids.len(),
{
    if ids.len() > 0 {
        lemma_deleted_totals(s, store, balance, start, ids.drop_last());
    }
}

/// Where the SUI of everything can be counted, it is what the objects hold and their storage
/// rebates.
proof fn lemma_totals<S: ObjectStore>(
    s: StoreView,
    store: S,
    balance: spec_fn(MoveObjectView) -> SuiResult<u64>,
)
    requires
        s.tally(store, balance).failed is None,
    ensures
        s.sui_before(store, balance) == s.held_before(store, balance) + sum_over(
            ascending(s.written.dom()),
            s.written_rebate_before(store),
        ) + sum_over(ascending(s.deleted.dom()), s.deleted_rebate_before(store)),
        s.sui_after(balance) == s.held_after(balance) + sum_over(
            ascending(s.written.dom()),
            s.rebate_after(),
        ),
{
    let written = ascending(s.written.dom());
    lemma_deleted_totals(
        s,
        store,
        balance,
        s.tally_written(store, balance, written),
        ascending(s.deleted.dom()),
    );
    lemma_written_totals(s, store, balance, written);
}

impl StoreView {
    /// The price of the storage of a written object.
    spec fn storage_price(self, gas: SuiGasStatus) -> spec_fn(ObjectID) -> int {
        |id: ObjectID| gas.price_of(self.written[id].0.size())
    }
}

/// Whether `after` comes from `before` by counting `rebate` and charging `cost` for storage.
spec fn counts_up(before: SuiGasStatus, after: SuiGasStatus, rebate: int, cost: int) -> bool {
    &&& same_prices(before, after)
    &&& before.charge ==> {
        &&& after.storage_rebate == before.storage_rebate + rebate
        &&& after.storage_cost == before.storage_cost + cost
        &&& after.unmetered_storage_rebate == before.unmetered_storage_rebate
    }
    &&& !before.charge ==> {
        &&& after.storage_rebate == before.storage_rebate
        &&& after.storage_cost == before.storage_cost
        &&& after.unmetered_storage_rebate == before.unmetered_storage_rebate + rebate
    }
}

proof fn lemma_written_charge_adds_up<S: ObjectStore>(
    s: StoreView,
    store: S,
    gas: SuiGasStatus,
    ids: Seq<ObjectID>,
)
    requires
        gas.wf(),
        gas.counted_rebate() + sum_over(ids, s.written_rebate(store)) <= u64::MAX,
        s.charge_written(store, gas, ids).failed is None,
    ensures
        s.charge_written(store, gas, ids).gas.wf(),
        counts_up(
            gas,
            s.charge_written(store, gas, ids).gas,
            sum_over(ids, s.written_rebate_before(store)),
            sum_over(ids, s.storage_price(gas)),
        ),
        sum_over(ids, s.written_rebate(store)) == sum_over(ids, s.written_rebate_before(store)),
        forall|i: int|
            0 <= i < ids.len() ==> 0 <= #[trigger] gas.price_of(s.written[ids[i]].0.size())
                <= u64::MAX,
    decreases ids.len(),
{
    if ids.len() > 0 {
        let rest = ids.drop_last();
        let id = ids.last();
        let size = s.written[id].0.size();
        lemma_sum_prefix(ids, s.written_rebate(store), ids.len() - 1);
        assert(ids.take(ids.len() - 1) =~= rest);
        lemma_written_charge_adds_up(s, store, gas, rest);
        let so_far = s.charge_written(store, gas, rest);
        assert(so_far.failed is None);
        assert(s.written_before(store, id) is Ok);
        assert(so_far.gas.affords(size));
        assert(0 <= size * gas.storage_gas_price) by (nonlinear_arith)
            requires
                0 <= size,
                0 <= gas.storage_gas_price,
        ;
        assert(gas.price_of(size) == so_far.gas.price_of(size));
        assert(s.written_rebate(store)(id) == s.written_rebate_before(store)(id));
        assert forall|i: int| 0 <= i < ids.len() implies 0 <= #[trigger] gas.price_of(
            s.written[ids[i]].0.size(),
        ) <= u64::MAX by {
            if i < rest.len() {
                assert(rest[i] == ids[i]);
                assert(0 <= gas.price_of(s.written[rest[i]].0.size()) <= u64::MAX);
            }
        }
    }
}

proof fn lemma_deleted_charge_adds_up<S: ObjectStore>(
    s: StoreView,
    store: S,
    start: Charge,
    ids: Seq<ObjectID>,
)
    requires
        start.gas.wf(),
        start.gas.counted_rebate() + sum_over(ids, s.deleted_rebate(store)) <= u64::MAX,
        s.charge_deleted(store, start, ids).failed is None,
    ensures
        start.failed is None,
        s.charge_deleted(store, start, ids).gas.wf(),
        counts_up(
            start.gas,
            s.charge_deleted(store, start, ids).gas,
            sum_over(ids, s.deleted_rebate_before(store)),
            0,
        ),
        sum_over(ids, s.deleted_rebate(store)) == sum_over(ids, s.deleted_rebate_before(store)),
    decreases ids.len(),
{
    if ids.len() > 0 {
        let rest = ids.drop_last();
        let id = ids.last();
        lemma_sum_prefix(ids, s.deleted_rebate(store), ids.len() - 1);
        assert(ids.take(ids.len() - 1) =~= rest);
        lemma_deleted_charge_adds_up(s, store, start, rest);
        let so_far = s.charge_deleted(store, start, rest);
        assert(so_far.failed is None);
        assert(s.deleted_before(store, id) is Ok);
        assert(so_far.gas.price_of(0) == 0);
        assert(s.deleted_rebate(store)(id) == s.deleted_rebate_before(store)(id));
    }
}

/// Where storage can be paid for, the meter counts the rebates of everything that was changed or
/// deleted, and charges for everything that was written.
proof fn lemma_storage_charge_adds_up<S: ObjectStore>(s: StoreView, store: S, gas: SuiGasStatus)
    requires
        gas.wf(),
        s.written.dom().finite(),
        gas.counted_rebate() + s.total_rebate(store) <= u64::MAX,
        s.storage_charge(store, gas).failed is None,
    ensures
        counts_up(
            gas,
            s.storage_charge(store, gas).gas,
            sum_over(ascending(s.written.dom()), s.written_rebate_before(store)) + sum_over(
                ascending(s.deleted.dom()),
                s.deleted_rebate_before(store),
            ),
            sum_over(ascending(s.written.dom()), s.storage_price(gas)),
        ),
        sum_over(ascending(s.written.dom()), s.repriced(gas).rebate_after()) == sum_over(
            ascending(s.written.dom()),
            s.storage_price(gas),
        ),
{
    let written = ascending(s.written.dom());
    let deleted = ascending(s.deleted.dom());
    let start = s.charge_written(store, gas, written);
    lemma_sum_prefix(written, s.written_rebate(store), written.len() as int);
    lemma_sum_prefix(deleted, s.deleted_rebate(store), deleted.len() as int);
    assert(written.take(written.len() as int) =~= written);
    assert(deleted.take(deleted.len() as int) =~= deleted);
    lemma_charge_not_failed(s, store, start, deleted);
    lemma_written_charge_adds_up(s, store, gas, written);
    lemma_deleted_charge_adds_up(s, store, start, deleted);
    lemma_ascending(s.written.dom());
    assert forall|id: ObjectID| #[trigger] s.written.dom().contains(id) implies s.repriced(
        gas,
    ).rebate_after()(id) == s.storage_price(gas)(id) by {
        let i = choose|i: int| 0 <= i < written.len() && written[i] == id;
        assert(0 <= gas.price_of(s.written[written[i]].0.size()) <= u64::MAX);
        assert(s.written.contains_key(id));
    }
    lemma_sum_agrees(s.written.dom(), s.repriced(gas).rebate_after(), s.storage_price(gas));
}

proof fn lemma_charge_not_failed<S: ObjectStore>(
    s: StoreView,
    store: S,
    start: Charge,
    ids: Seq<ObjectID>,
)
    requires
        s.charge_deleted(store, start, ids).failed is None,
    ensures
        start.failed is None,
    decreases ids.len(),
{
    if ids.len() > 0 {
        lemma_charge_not_failed(s, store, start, ids.drop_last());
    }
}

/// Setting storage rebates changes nothing of what objects hold.
proof fn lemma_repricing_keeps_held<S: ObjectStore>(
    s: StoreView,
    store: S,
    gas: SuiGasStatus,
    balance: spec_fn(MoveObjectView) -> SuiResult<u64>,
)
    requires
        s.written.dom().finite(),
        s.deleted.dom().finite(),
    ensures
        s.repriced(gas).written.dom() == s.written.dom(),
        s.repriced(gas).held_before(store, balance) == s.held_before(store, balance),
        s.repriced(gas).held_after(balance) == s.held_after(balance),
        sum_over(
            ascending(s.written.dom()),
            s.repriced(gas).written_rebate_before(store),
        ) == sum_over(ascending(s.written.dom()), s.written_rebate_before(store)),
        sum_over(
            ascending(s.deleted.dom()),
            s.repriced(gas).deleted_rebate_before(store),
        ) == sum_over(ascending(s.deleted.dom()), s.deleted_rebate_before(store)),
{
    let after = s.repriced(gas);
    assert(after.written.dom() =~= s.written.dom());
    assert forall|id: ObjectID| #[trigger] s.written.dom().contains(id) implies {
        &&& after.written_held_before(store, balance)(id) == s.written_held_before(
            store,
            balance,
        )(id)
        &&& after.written_held_after(balance)(id) == s.written_held_after(balance)(id)
        &&& after.written_rebate_before(store)(id) == s.written_rebate_before(store)(id)
    } by {
        assert(s.written.contains_key(id));
    }
    lemma_sum_agrees(
        s.written.dom(),
        after.written_held_before(store, balance),
        s.written_held_before(store, balance),
    );
    lemma_sum_agrees(
        s.written.dom(),
        after.written_held_after(balance),
        s.written_held_after(balance),
    );
    lemma_sum_agrees(
        s.written.dom(),
        after.written_rebate_before(store),
        s.written_rebate_before(store),
    );
    lemma_sum_agrees(
        s.deleted.dom(),
        after.deleted_held_before(store, balance),
        s.deleted_held_before(store, balance),
    );
    lemma_sum_agrees(
        s.deleted.dom(),
        after.deleted_rebate_before(store),
        s.deleted_rebate_before(store),
    );
}

/// Writing an object anew that was changed already moves what is held by what the object then holds
/// more, and leaves what was held before alone.
proof fn lemma_rewriting_moves_held<S: ObjectStore>(
    s: StoreView,
    store: S,
    object: ObjectView,
    balance: spec_fn(MoveObjectView) -> SuiResult<u64>,
)
    requires
        s.written.dom().finite(),
        s.deleted.dom().finite(),
        s.written.contains_key(object.id()),
        s.written[object.id()].1 is Mutate,
    ensures
        ({
            let after = s.write_object(object, WriteKind::Mutate);
            let old_object = s.written[object.id()].0;
            &&& after.written.dom() == s.written.dom()
            &&& after.held_before(store, balance) == s.held_before(store, balance)
            &&& after.held_after(balance) - s.held_after(balance) == held(object, balance) - held(
                old_object,
                balance,
            )
            &&& sum_over(ascending(s.written.dom()), after.written_rebate_before(store))
                == sum_over(ascending(s.written.dom()), s.written_rebate_before(store))
            &&& sum_over(ascending(s.deleted.dom()), after.deleted_rebate_before(store))
                == sum_over(ascending(s.deleted.dom()), s.deleted_rebate_before(store))
            &&& sum_over(ascending(s.written.dom()), after.rebate_after()) - sum_over(
                ascending(s.written.dom()),
                s.rebate_after(),
            ) == object.storage_rebate - old_object.storage_rebate
        }),
{
    let id = object.id();
    let after = s.write_object(object, WriteKind::Mutate);
    assert(after.written.dom() =~= s.written.dom());
    assert(s.written.dom().contains(id));
    lemma_sum_agrees(
        s.written.dom(),
        after.written_held_before(store, balance),
        s.written_held_before(store, balance),
    );
    lemma_sum_agrees(
        s.written.dom(),
        after.written_rebate_before(store),
        s.written_rebate_before(store),
    );
    lemma_sum_agrees(
        s.deleted.dom(),
        after.deleted_held_before(store, balance),
        s.deleted_held_before(store, balance),
    );
    lemma_sum_agrees(
        s.deleted.dom(),
        after.deleted_rebate_before(store),
        s.deleted_rebate_before(store),
    );
    lemma_sum_differs_at(
        s.written.dom(),
        s.written_held_after(balance),
        after.written_held_after(balance),
        id,
    );
    lemma_sum_differs_at(s.written.dom(), s.rebate_after(), after.rebate_after(), id);
}

/// What is written when storage is charged for is finite, since the inputs are.
pub proof fn lemma_prepared_is_finite(s: StoreView, gas_object_id: Option<ObjectID>)
    requires
        s.input_objects.dom().finite(),
        s.written.dom().finite(),
        forall|i: int|
            0 <= i < s.mutable_inputs.len() ==> s.input_objects.contains_key(
                (#[trigger] s.mutable_inputs[i]).0,
            ),
    ensures
        s.prepared(gas_object_id).written.dom().finite(),
{
    let entered = s.with_gas_object(gas_object_id);
    assert(s.prepared(gas_object_id).written.dom().subset_of(
        entered.written.dom().union(s.input_objects.dom()),
    ));
    vstd::set_lib::lemma_set_subset_finite(
        entered.written.dom().union(s.input_objects.dom()),
        s.prepared(gas_object_id).written.dom(),
    );
}

/// Charging for gas creates and destroys no SUI. What the transaction holds more after it than
/// before, with what it paid for gas and with all storage rebates, is what it held more without
/// them when gas was about to be charged for.
pub proof fn law_charging_moves_no_sui<S: ObjectStore>(
    start: Settlement,
    backing: S,
    id: ObjectID,
    balance: spec_fn(MoveObjectView) -> SuiResult<u64>,
)
    requires
        start.store.wf(),
        start.gas.charge,
        start.gas.storage_cost == 0,
        start.gas.storage_rebate == 0,
        start.store.may_charge_storage(backing, start.gas, Some(id)),
        start.storage_error(backing, Some(id)) is None,
        start.store.written.contains_key(id) ==> start.store.written[id].1 is Mutate,
        start.after_storage(backing, Some(id)).may_pay(id),
        start.after_storage(backing, Some(id)).paid(Some(id)).tally(backing, balance).failed is None,
    ensures
        ({
            let prepared = start.store.prepared(Some(id));
            let paid = start.after_storage(backing, Some(id)).paid(Some(id));
            paid.sui_after(balance) + paid.gas_in_no_object() - paid.sui_before(backing, balance)
                == prepared.held_after(balance) - prepared.held_before(backing, balance)
        }),
{
    let prepared = start.store.prepared(Some(id));
    let stored = start.after_storage(backing, Some(id));
    let paid = stored.paid(Some(id));
    let summary = stored.gas.spec_summary();
    let coin = stored.store.read_object(id)->0;
    let left = balance_after_gas(
        coin,
        summary.spec_gas_used(),
        rebate_for_sender(summary.storage_rebate, stored.store.storage_rebate_rate),
    );
    lemma_prepared_is_finite(start.store, Some(id));
    lemma_storage_charge_adds_up(prepared, backing, start.gas);
    lemma_repricing_keeps_held(prepared, backing, start.gas, balance);
    assert(prepared.written.contains_key(id));
    assert(stored.store == prepared.repriced(start.gas));
    assert(stored.store.written.dom() == prepared.written.dom());
    assert(stored.store.written.dom().contains(id));
    assert(stored.store.written.contains_key(id));
    assert(coin.id() == id);
    lemma_with_gas_balance(coin, left as u64);
    lemma_coin_balance_fits(coin.data->Move_0.contents);
    lemma_rewriting_moves_held(stored.store, backing, stored.paid_gas_object(id), balance);
    let written = stored.store.write_object(stored.paid_gas_object(id), WriteKind::Mutate);
    assert(written.written == paid.written && written.deleted == paid.deleted
        && written.input_objects == paid.input_objects);
    lemma_same_counts(written, paid, backing, balance);
    lemma_totals(paid, backing, balance);
    assert(left >= 0) by {
        law_rebate_is_split(
            summary.storage_rebate,
            stored.store.storage_rebate_rate,
        );
    }
    assert(held(stored.paid_gas_object(id), balance) == left);
    assert(held(coin, balance) == coin.gas_balance());
}

/// What was written and deleted, and what there was before, settles what is counted.
proof fn lemma_same_counts<S: ObjectStore>(
    a: StoreView,
    b: StoreView,
    store: S,
    balance: spec_fn(MoveObjectView) -> SuiResult<u64>,
)
    requires
        a.written == b.written,
        a.deleted == b.deleted,
        a.input_objects == b.input_objects,
    ensures
        a.held_before(store, balance) == b.held_before(store, balance),
        a.held_after(balance) == b.held_after(balance),
        a.rebate_after() == b.rebate_after(),
        a.written_rebate_before(store) == b.written_rebate_before(store),
        a.deleted_rebate_before(store) == b.deleted_rebate_before(store),
{
    assert(a.written_held_before(store, balance) =~= b.written_held_before(store, balance));
    assert(a.deleted_held_before(store, balance) =~= b.deleted_held_before(store, balance));
    assert(a.written_held_after(balance) =~= b.written_held_after(balance));
    assert(a.rebate_after() =~= b.rebate_after());
    assert(a.written_rebate_before(store) =~= b.written_rebate_before(store));
    assert(a.deleted_rebate_before(store) =~= b.deleted_rebate_before(store));
}

/// Whether no coin is named twice.
pub open spec fn is_distinct(gas: Seq<ObjectRef>) -> bool {
    forall|i: int, j: int|
        0 <= i < j < gas.len() ==> (#[trigger] gas[i]).0 != (#[trigger] gas[j]).0
}

impl StoreView {
    /// The balance of an input coin.
    spec fn input_balance(self) -> spec_fn(ObjectID) -> int {
        |id: ObjectID| self.input_objects[id].gas_balance() as int
    }
}

/// The coins that are merged are those that are then deleted.
proof fn lemma_merged_coins_are_deleted(s: StoreView, balance: nat, others: Seq<ObjectRef>)
    requires
        s.deleted == Map::<ObjectID, (SequenceNumber, DeleteKind)>::empty(),
        s.merge_coins(balance, others).1 is Some,
        is_distinct(others),
        forall|j: int|
            0 <= j < others.len() ==> s.input_objects[(#[trigger] others[j]).0].id() == others[j].0,
    ensures
        s.merge_coins(balance, others).1 == Some(balance + s.total_balance(others)),
        others.len() > 0 ==> balance + s.total_balance(others) <= u64::MAX,
        ({
            let deleted = s.merge_coins(balance, others).0.deleted;
            &&& deleted.dom().finite()
            &&& forall|id: ObjectID| #[trigger]
                deleted.contains_key(id) ==> deleted[id].1 is Normal && exists|j: int|
                    0 <= j < others.len() && (#[trigger] others[j]).0 == id
            &&& sum_over(ascending(deleted.dom()), s.input_balance()) == s.total_balance(others)
        }),
    decreases others.len(),
{
    if others.len() == 0 {
        lemma_ascending(s.deleted.dom());
        if ascending(s.deleted.dom()).len() > 0 {
            assert(s.deleted.dom().contains(ascending(s.deleted.dom())[0]));
        }
    } else {
        let rest = others.drop_last();
        let last = others[others.len() - 1];
        assert forall|j: int| 0 <= j < rest.len() implies s.input_objects[(
        #[trigger] rest[j]).0].id() == rest[j].0 by {
            assert(rest[j] == others[j]);
        }
        assert(s.input_objects[last.0].id() == last.0);
        lemma_merged_coins_are_deleted(s, balance, rest);
        let before = s.merge_coins(balance, rest).0.deleted;
        let after = s.merge_coins(balance, others).0.deleted;
        assert(!before.dom().contains(last.0)) by {
            if before.contains_key(last.0) {
                let j = choose|j: int| 0 <= j < rest.len() && (#[trigger] rest[j]).0 == last.0;
                assert(others[j].0 != others[others.len() - 1].0);
            }
        }
        assert(after.dom() =~= before.dom().insert(last.0));
        lemma_sum_insert(before.dom(), s.input_balance(), last.0);
        assert forall|id: ObjectID| #[trigger] after.contains_key(id) implies after[id].1 is Normal
            && exists|j: int| 0 <= j < others.len() && (#[trigger] others[j]).0 == id by {
            if id == last.0 {
                assert(others[others.len() - 1].0 == id);
            } else {
                assert(before.contains_key(id));
                let j = choose|j: int| 0 <= j < rest.len() && (#[trigger] rest[j]).0 == id;
                assert(others[j].0 == id);
            }
        }
    }
}

/// A coin holds its balance.
proof fn lemma_coin_holds_balance(
    object: ObjectView,
    balance: spec_fn(MoveObjectView) -> SuiResult<u64>,
)
    requires
        object.is_gas_coin(),
    ensures
        held(object, balance) == object.gas_balance(),
{
    lemma_coin_balance_fits(object.data->Move_0.contents);
}

/// A transaction that did nothing but smash its gas coins holds what it held before.
pub proof fn law_smashing_moves_no_sui<S: ObjectStore>(
    start: StoreView,
    backing: S,
    gas: Seq<ObjectRef>,
    balance: spec_fn(MoveObjectView) -> SuiResult<u64>,
)
    requires
        start.wf(),
        start.drop_writes() == start,
        start.may_smash(gas),
        start.smash_result(gas) is Ok,
        is_distinct(gas),
        start.input_objects.contains_key(gas[0].0),
    ensures
        ({
            let prepared = start.smash_gas(gas).prepared(Some(gas[0].0));
            prepared.held_after(balance) == prepared.held_before(backing, balance)
        }),
{
    let id = gas[0].0;
    let smashed = start.smash_gas(gas);
    let prepared = smashed.prepared(Some(id));
    let first = start.input_objects[id];
    let others = merged_coins(gas);
    let n = gas.len() as int;
    assert(start.written.dom() =~= Set::<ObjectID>::empty());
    assert(start.deleted =~= Map::empty());
    lemma_merge_frame(start, first.gas_balance(), others);
    if gas.len() > 1 {
        assert forall|j: int| 0 <= j < others.len() implies {
            &&& #[trigger] others[j] == gas[if j == 0 {
                n - 1
            } else {
                j
            }]
            &&& start.input_objects[others[j].0].id() == others[j].0
            &&& start.input_objects[others[j].0].is_gas_coin()
        } by {
            let k = if j == 0 {
                n - 1
            } else {
                j
            };
            assert(others[j] == gas[k]);
            lemma_coins_are_inputs(start, gas, k);
            lemma_no_gas_fault(start, gas, k);
        }
        assert forall|i: int, j: int| 0 <= i < j < others.len() implies (
        #[trigger] others[i]).0 != (#[trigger] others[j]).0 by {
            if i == 0 {
                assert(gas[j].0 != gas[n - 1].0);
            } else {
                assert(gas[i].0 != gas[j].0);
            }
        }
        lemma_merged_coins_are_deleted(start, first.gas_balance(), others);
        lemma_no_gas_fault(start, gas, 0);
        let sum = first.gas_balance() + start.total_balance(others);
        lemma_with_gas_balance(first, sum as u64);
        lemma_coin_holds_balance(first, balance);
        lemma_coin_holds_balance(first.with_gas_balance(sum as u64), balance);
        assert(smashed.written.contains_key(id));
        assert(smashed.written.dom() =~= Set::<ObjectID>::empty().insert(id));
    }
    lemma_prepared_is_finite(smashed, Some(id));
    assert(prepared.deleted == smashed.deleted);
    assert(prepared.written.dom().contains(id));
    assert forall|x: ObjectID| #[trigger] prepared.written.dom().contains(x) && x
        != id implies prepared.written_held_before(backing, balance)(x)
        == prepared.written_held_after(balance)(x) by {
        assert(prepared.written.contains_key(x));
        assert(prepared.input_objects.contains_key(x));
    }
    lemma_sum_differs_at(
        prepared.written.dom(),
        prepared.written_held_before(backing, balance),
        prepared.written_held_after(balance),
        id,
    );
    if gas.len() > 1 {
        assert forall|x: ObjectID| #[trigger]
            prepared.deleted.dom().contains(x) implies prepared.deleted_held_before(
            backing,
            balance,
        )(x) == start.input_balance()(x) by {
            assert(prepared.deleted.contains_key(x));
            let j = choose|j: int| 0 <= j < others.len() && (#[trigger] others[j]).0 == x;
            let k = if j == 0 {
                n - 1
            } else {
                j
            };
            assert(others[j] == gas[k]);
            lemma_coins_are_inputs(start, gas, k);
            lemma_coin_holds_balance(start.input_objects[x], balance);
        }
        lemma_sum_agrees(
            prepared.deleted.dom(),
            prepared.deleted_held_before(backing, balance),
            start.input_balance(),
        );
    } else {
        lemma_ascending(prepared.deleted.dom());
        if ascending(prepared.deleted.dom()).len() > 0 {
            assert(prepared.deleted.dom().contains(ascending(prepared.deleted.dom())[0]));
        }
    }
}

proof fn lemma_charge_stays_on<S: ObjectStore>(
    s: StoreView,
    store: S,
    start: Charge,
    gas: SuiGasStatus,
    ids: Seq<ObjectID>,
)
    ensures
        s.charge_written(store, gas, ids).gas.charge == gas.charge,
        s.charge_deleted(store, start, ids).gas.charge == start.gas.charge,
    decreases ids.len(),
{
    if ids.len() > 0 {
        lemma_charge_stays_on(s, store, start, gas, ids.drop_last());
    }
}

/// A store in which nothing was written yet is in order after its gas coins were smashed.
proof fn lemma_smashed_is_in_order(start: StoreView, gas: Seq<ObjectRef>)
    requires
        start.wf(),
        start.drop_writes() == start,
        start.may_smash(gas),
        start.smash_result(gas) is Ok,
        is_distinct(gas),
    ensures
        start.smash_gas(gas).wf(),
        forall|id: ObjectID| #[trigger]
            start.smash_gas(gas).written.contains_key(id) ==> id == gas[0].0
                && start.smash_gas(gas).written[id].1 is Mutate,
        gas.len() > 1 ==> start.input_objects.contains_key(gas[0].0),
{
    let first = start.input_objects[gas[0].0];
    let others = merged_coins(gas);
    let n = gas.len() as int;
    assert(start.written.dom() =~= Set::<ObjectID>::empty());
    assert(start.deleted =~= Map::empty());
    if gas.len() > 1 {
        lemma_merge_frame(start, first.gas_balance(), others);
        lemma_coins_are_inputs(start, gas, 0);
        lemma_no_gas_fault(start, gas, 0);
        assert forall|j: int| 0 <= j < others.len() implies start.input_objects[(
        #[trigger] others[j]).0].id() == others[j].0 by {
            let k = if j == 0 {
                n - 1
            } else {
                j
            };
            assert(others[j] == gas[k]);
            lemma_coins_are_inputs(start, gas, k);
        }
        assert forall|i: int, j: int| 0 <= i < j < others.len() implies (
        #[trigger] others[i]).0 != (#[trigger] others[j]).0 by {
            if i == 0 {
                assert(gas[j].0 != gas[n - 1].0);
            } else {
                assert(gas[i].0 != gas[j].0);
            }
        }
        lemma_merged_coins_are_deleted(start, first.gas_balance(), others);
        let sum = first.gas_balance() + start.total_balance(others);
        lemma_with_gas_balance(first, sum as u64);
    }
}

/// A transaction that was reset and paid for its gas neither created nor destroyed SUI.
proof fn lemma_reset_conserves_sui<S: ObjectStore>(
    start: StoreView,
    reset: Settlement,
    backing: S,
    gas: Seq<ObjectRef>,
    balance: spec_fn(MoveObjectView) -> SuiResult<u64>,
)
    requires
        start.wf(),
        start.drop_writes() == start,
        start.may_smash(gas),
        start.smash_result(gas) is Ok,
        is_distinct(gas),
        reset.store == start.smash_gas(gas),
        reset.gas.charge,
        reset.gas.storage_cost == 0,
        reset.gas.storage_rebate == 0,
        reset.store.may_charge_storage(backing, reset.gas, Some(gas[0].0)),
        reset.storage_error(backing, Some(gas[0].0)) is None,
        reset.after_storage(backing, Some(gas[0].0)).may_pay(gas[0].0),
        reset.after_storage(backing, Some(gas[0].0)).paid(Some(gas[0].0)).tally(
            backing,
            balance,
        ).failed is None,
    ensures
        ({
            let paid = reset.after_storage(backing, Some(gas[0].0)).paid(Some(gas[0].0));
            paid.sui_before(backing, balance) == paid.sui_after(balance) + paid.gas_in_no_object()
        }),
{
    lemma_smashed_is_in_order(start, gas);
    assert(start.input_objects.contains_key(gas[0].0)) by {
        assert(reset.store.read_object(gas[0].0) is Some);
        if gas.len() <= 1 {
            assert(start.written =~= Map::empty());
        }
    }
    law_smashing_moves_no_sui(start, backing, gas, balance);
    law_charging_moves_no_sui(reset, backing, gas[0].0, balance);
}

/// A transaction that pays for gas neither creates nor destroys SUI, as long as its execution does
/// not: the check that SUI is conserved succeeds after gas was charged for. Where execution failed,
/// or its storage could not be paid for, that needs no more than that the storage of the gas coins
/// can be.
pub proof fn law_paid_transactions_conserve_sui<S: ObjectStore>(
    before: Settlement,
    backing: S,
    gas: Seq<ObjectRef>,
    balance: spec_fn(MoveObjectView) -> SuiResult<u64>,
)
    requires
        before.store.wf(),
        before.gas.charge,
        gas.len() >= 1,
        is_distinct(gas),
        before.may_charge(backing, Some(gas[0].0), gas),
        before.charged(backing, Some(gas[0].0), gas).may_pay(gas[0].0),
        ({
            let id = gas[0].0;
            let computed = before.after_computation(gas);
            let prepared = computed.store.prepared(Some(id));
            let again = computed.after_storage(backing, Some(id)).reset(gas);
            &&& before.charged(backing, Some(id), gas).error is None ==> {
                &&& prepared.held_after(balance) == prepared.held_before(backing, balance)
                &&& prepared.written[id].1 is Mutate
            }
            &&& computed.storage_error(backing, Some(id)) is Some ==> again.storage_error(
                backing,
                Some(id),
            ) is None
        }),
        before.charged(backing, Some(gas[0].0), gas).paid(Some(gas[0].0)).tally(
            backing,
            balance,
        ).failed is None,
    ensures
        ({
            let paid = before.charged(backing, Some(gas[0].0), gas).paid(Some(gas[0].0));
            conservation_verdict(paid.tally(backing, balance), 0, paid.gas_in_no_object()) is Ok
        }),
{
    let id = gas[0].0;
    let start = before.store.drop_writes();
    let computed = before.after_computation(gas);
    let stored = computed.after_storage(backing, Some(id));
    let paid = before.charged(backing, Some(id), gas).paid(Some(id));
    assert(start.drop_writes() =~= start);
    assert(start.wf());
    if computed.storage_error(backing, Some(id)) is Some {
        let again = stored.reset(gas);
        law_storage_charge_can_be_dropped(computed.store, backing, computed.gas, Some(id));
        if computed.error is Some {
            law_reset_is_a_fresh_start(start, before.store, gas);
        }
        lemma_merge_frame(
            start,
            start.input_objects[gas[0].0].gas_balance(),
            merged_coins(gas),
        );
        assert(stored.store.drop_writes() =~= start);
        let prepared = computed.store.prepared(Some(id));
        let written = ascending(prepared.written.dom());
        let charge = prepared.charge_written(backing, computed.gas, written);
        lemma_charge_stays_on(prepared, backing, charge, computed.gas, written);
        lemma_charge_stays_on(
            prepared,
            backing,
            charge,
            computed.gas,
            ascending(prepared.deleted.dom()),
        );
        lemma_reset_conserves_sui(start, again, backing, gas, balance);
    } else if computed.error is Some {
        lemma_reset_conserves_sui(start, computed, backing, gas, balance);
    } else {
        let prepared = computed.store.prepared(Some(id));
        if computed.store.written.contains_key(id) {
            assert(prepared.written[id] == computed.store.written[id]);
        }
        law_charging_moves_no_sui(computed, backing, id, balance);
    }
    let written = ascending(paid.written.dom());
    let deleted = ascending(paid.deleted.dom());
    let tally = paid.tally_written(backing, balance, written);
    lemma_tally_written(paid, backing, balance, written);
    lemma_tally_deleted(paid, backing, balance, tally, deleted);
}

/// A system transaction, which does not pay for gas, neither creates nor destroys SUI, as long as
/// its execution does not: the storage rebates that no one was paid end up in the system state
/// object, in the second gas model. (The first one leaves them out.) The transaction that ends an
/// epoch mints its fees and burns its rebates, and nothing else.
pub proof fn law_unmetered_transactions_conserve_sui<S: ObjectStore>(
    start: Settlement,
    backing: S,
    balance: spec_fn(MoveObjectView) -> SuiResult<u64>,
    epoch: Option<(u64, u64)>,
)
    requires
        start.store.wf(),
        start.store.gas_charged is None,
        !start.gas.charge,
        start.gas.unmetered_storage_rebate == 0,
        start.store.may_charge_storage(backing, start.gas, None),
        start.storage_error(backing, None) is None,
        ({
            let id = SUI_SYSTEM_STATE_OBJECT_ID;
            let prepared = start.store.prepared(None);
            let stored = start.after_storage(backing, None);
            let rebate = stored.gas.unmetered_storage_rebate;
            let after = stored.store.conserve_rebate(rebate);
            &&& prepared.held_after(balance) + epoch_rebates(epoch) == prepared.held_before(
                backing,
                balance,
            ) + epoch_fees(epoch)
            &&& rebate != 0 ==> {
                &&& stored.store.conserves_rebate(rebate)
                &&& stored.store.may_read(id)
                &&& stored.store.read_object(id) is Some
                &&& stored.store.read_object(id)->0.storage_rebate == 0
                &&& stored.store.written.contains_key(id) ==> stored.store.written[id].1 is Mutate
            }
            &&& after.tally(backing, balance).failed is None
        }),
    ensures
        ({
            let stored = start.after_storage(backing, None);
            let after = stored.store.conserve_rebate(stored.gas.unmetered_storage_rebate);
            conservation_verdict(
                after.tally(backing, balance),
                epoch_fees(epoch),
                after.gas_in_no_object() + epoch_rebates(epoch),
            ) is Ok
        }),
{
    let id = SUI_SYSTEM_STATE_OBJECT_ID;
    let prepared = start.store.prepared(None);
    let stored = start.after_storage(backing, None);
    let rebate = stored.gas.unmetered_storage_rebate;
    let after = stored.store.conserve_rebate(rebate);
    lemma_prepared_is_finite(start.store, None);
    lemma_storage_charge_adds_up(prepared, backing, start.gas);
    lemma_repricing_keeps_held(prepared, backing, start.gas, balance);
    assert(stored.store == prepared.repriced(start.gas));
    assert(stored.store.written.dom() == prepared.written.dom());
    lemma_sum_agrees(
        prepared.written.dom(),
        prepared.storage_price(start.gas),
        |x: ObjectID| 0int,
    );
    lemma_sum_of_nothing(ascending(prepared.written.dom()));
    if rebate != 0 {
        let state = ObjectView {
            storage_rebate: rebate,
            ..stored.store.read_object(id)->0
        };
        assert(after == stored.store.write_object(state, WriteKind::Mutate));
        assert(state.id() == id) by {
            if stored.store.written.contains_key(id) {
                assert(prepared.written.dom().contains(id));
                assert(prepared.written.contains_key(id));
            } else {
                assert(start.store.input_objects.contains_key(id));
            }
        }
        if stored.store.written.contains_key(id) {
            lemma_rewriting_moves_held(stored.store, backing, state, balance);
        } else {
            lemma_writing_input_moves_held(stored.store, backing, state, balance);
        }
    }
    lemma_totals(after, backing, balance);
    assert(after.gas_in_no_object() == 0);
    let written = ascending(after.written.dom());
    let deleted = ascending(after.deleted.dom());
    let tally = after.tally_written(backing, balance, written);
    lemma_tally_written(after, backing, balance, written);
    lemma_tally_deleted(after, backing, balance, tally, deleted);
}

proof fn lemma_sum_of_nothing(ids: Seq<ObjectID>)
    ensures
        sum_over(ids, |x: ObjectID| 0int) == 0,
    decreases ids.len(),
{
    if ids.len() > 0 {
        lemma_sum_of_nothing(ids.drop_last());
    }
}

/// Writing an input with another storage rebate, and otherwise as it is, moves nothing of what is
/// held.
proof fn lemma_writing_input_moves_held<S: ObjectStore>(
    s: StoreView,
    store: S,
    object: ObjectView,
    balance: spec_fn(MoveObjectView) -> SuiResult<u64>,
)
    requires
        s.written.dom().finite(),
        s.deleted.dom().finite(),
        !s.written.contains_key(object.id()),
        s.input_objects.contains_key(object.id()),
        s.input_objects[object.id()].data == object.data,
        s.input_objects[object.id()].storage_rebate == 0,
    ensures
        ({
            let after = s.write_object(object, WriteKind::Mutate);
            &&& after.held_after(balance) - after.held_before(store, balance) == s.held_after(
                balance,
            ) - s.held_before(store, balance)
            &&& sum_over(ascending(after.written.dom()), after.written_rebate_before(store))
                == sum_over(ascending(s.written.dom()), s.written_rebate_before(store))
            &&& sum_over(ascending(after.deleted.dom()), after.deleted_rebate_before(store))
                == sum_over(ascending(s.deleted.dom()), s.deleted_rebate_before(store))
            &&& sum_over(ascending(after.written.dom()), after.rebate_after()) == sum_over(
                ascending(s.written.dom()),
                s.rebate_after(),
            ) + object.storage_rebate
        }),
{
    let id = object.id();
    let after = s.write_object(object, WriteKind::Mutate);
    assert(after.written.dom() =~= s.written.dom().insert(id));
    lemma_sum_insert(s.written.dom(), after.written_held_before(store, balance), id);
    lemma_sum_insert(s.written.dom(), after.written_held_after(balance), id);
    lemma_sum_insert(s.written.dom(), after.written_rebate_before(store), id);
    lemma_sum_insert(s.written.dom(), after.rebate_after(), id);
    lemma_sum_agrees(
        s.written.dom(),
        after.written_held_before(store, balance),
        s.written_held_before(store, balance),
    );
    lemma_sum_agrees(
        s.written.dom(),
        after.written_held_after(balance),
        s.written_held_after(balance),
    );
    lemma_sum_agrees(
        s.written.dom(),
        after.written_rebate_before(store),
        s.written_rebate_before(store),
    );
    lemma_sum_agrees(s.written.dom(), after.rebate_after(), s.rebate_after());
    lemma_sum_agrees(
        s.deleted.dom(),
        after.deleted_held_before(store, balance),
        s.deleted_held_before(store, balance),
    );
    lemma_sum_agrees(
        s.deleted.dom(),
        after.deleted_rebate_before(store),
        s.deleted_rebate_before(store),
    );
}

} // verus!

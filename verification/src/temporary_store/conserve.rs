use crate::base_types::{ObjectID, SequenceNumber};
use crate::error::{SuiError, SuiResult};
use crate::gas::{rebate_for_sender, GasCostSummary, BASIS_POINTS};
use crate::move_types::MoveObjectType;
use crate::object::{Data, DataView, MoveObject, MoveObjectView, Object, ObjectView};
use crate::order::{ascending, keys_in_order};
use crate::storage::{found, DeleteKind, ObjectStore, WriteKind};
use crate::sums::{lemma_sum_prefix, sum_over};
use crate::temporary_store::laws::law_rebate_is_split;
use crate::temporary_store::model::StoreView;
use crate::temporary_store::TemporaryStore;
use vstd::prelude::*;

verus! {

broadcast use vstd::laws_cmp::group_laws_cmp;

/// Whether `f` can be asked for the SUI in any Move object, and its answer depends on nothing but
/// what the object is.
pub open spec fn answers<F: Fn(&MoveObject) -> SuiResult<u64>>(f: F) -> bool {
    &&& forall|m: MoveObject| call_requires(f, (&m,))
    &&& forall|a: MoveObject, b: MoveObject, x: SuiResult<u64>, y: SuiResult<u64>|
        a@ == b@ && #[trigger] call_ensures(f, (&a,), x) && #[trigger] call_ensures(f, (&b,), y)
            ==> x == y
}

/// Whether `f` may answer `r` for a Move object.
pub open spec fn is_answer<F: Fn(&MoveObject) -> SuiResult<u64>>(
    f: F,
    v: MoveObjectView,
    r: SuiResult<u64>,
) -> bool {
    exists|m: MoveObject| m@ == v && #[trigger] call_ensures(f, (&m,), r)
}

/// What `f` answers for a Move object.
pub open spec fn answer_of<F: Fn(&MoveObject) -> SuiResult<u64>>(f: F) -> spec_fn(
    MoveObjectView,
) -> SuiResult<u64> {
    |v: MoveObjectView| choose|r: SuiResult<u64>| is_answer(f, v, r)
}

/// The SUI in a Move object: the balance of a SUI coin, none in a coin of another currency, and
/// what `balance` finds in any other object.
pub open spec fn sui_in(
    m: MoveObjectView,
    balance: spec_fn(MoveObjectView) -> SuiResult<u64>,
) -> SuiResult<u64> {
    if m.is_gas_coin() {
        Ok(crate::coin::coin_balance(m.contents) as u64)
    } else if m.type_ is Coin {
        Ok(0)
    } else {
        balance(m)
    }
}

/// The SUI in an object and in its storage rebate.
pub open spec fn total_sui(
    object: ObjectView,
    balance: spec_fn(MoveObjectView) -> SuiResult<u64>,
) -> SuiResult<int> {
    match object.data {
        DataView::Package(_) => Ok(object.storage_rebate as int),
        DataView::Move(m) => match sui_in(m, balance) {
            Ok(sui) => Ok(object.storage_rebate + sui),
            Err(error) => Err(error),
        },
    }
}

/// A total, and nothing in place of an error.
pub open spec fn or_nothing(total: SuiResult<int>) -> int {
    match total {
        Ok(sui) => sui,
        Err(_) => 0,
    }
}

/// The SUI that was counted before and after the transaction, and what stopped the count.
pub struct Tally {
    pub input: int,
    pub output: int,
    pub failed: Option<SuiError>,
}

impl Tally {
    /// The tally after one more object was counted before the transaction.
    pub open spec fn with_input(self, total: SuiResult<int>) -> Tally {
        if self.failed is Some {
            self
        } else {
            match total {
                Ok(sui) => Tally { input: self.input + sui, ..self },
                Err(error) => Tally { failed: Some(error), ..self },
            }
        }
    }

    /// The tally after one more object was counted after the transaction.
    pub open spec fn with_output(self, total: SuiResult<int>) -> Tally {
        if self.failed is Some {
            self
        } else {
            match total {
                Ok(sui) => Tally { output: self.output + sui, ..self },
                Err(error) => Tally { failed: Some(error), ..self },
            }
        }
    }
}

impl StoreView {
    /// The object `id` before the transaction: as it was an input, or else as the backing store has
    /// it.
    pub open spec fn input_object<S: ObjectStore>(self, store: S, id: ObjectID) -> ObjectView {
        if self.input_objects.contains_key(id) {
            self.input_objects[id]
        } else {
            store.object_at(id)->Ok_0->Some_0
        }
    }

    /// Whether the object `id` existed before the transaction, at the version `version`.
    pub open spec fn has_input<S: ObjectStore>(
        self,
        store: S,
        id: ObjectID,
        version: SequenceNumber,
    ) -> bool {
        &&& self.input_objects.contains_key(id) || (store.object_at(id) is Ok && store.object_at(
            id,
        )->Ok_0 is Some)
        &&& self.input_object(store, id).version() == version
    }

    /// Whether the SUI of the written object `id` counts before the transaction.
    pub open spec fn written_counts_as_input(self, id: ObjectID) -> bool {
        self.written[id].1 is Mutate
    }

    /// Whether the SUI of the deleted object `id` counts before the transaction. What was unwrapped
    /// first is counted with the object that wrapped it.
    pub open spec fn deleted_counts_as_input(self, id: ObjectID) -> bool {
        !(self.deleted[id].1 is UnwrapThenDelete)
    }

    /// The SUI before the transaction in a written object.
    pub open spec fn written_input<S: ObjectStore>(
        self,
        store: S,
        balance: spec_fn(MoveObjectView) -> SuiResult<u64>,
    ) -> spec_fn(ObjectID) -> int {
        |id: ObjectID|
            if self.written_counts_as_input(id) {
                or_nothing(total_sui(self.input_object(store, id), balance))
            } else {
                0
            }
    }

    /// The SUI after the transaction in a written object.
    pub open spec fn written_output(
        self,
        balance: spec_fn(MoveObjectView) -> SuiResult<u64>,
    ) -> spec_fn(ObjectID) -> int {
        |id: ObjectID| or_nothing(total_sui(self.written[id].0, balance))
    }

    /// The SUI before the transaction in a deleted object.
    pub open spec fn deleted_input<S: ObjectStore>(
        self,
        store: S,
        balance: spec_fn(MoveObjectView) -> SuiResult<u64>,
    ) -> spec_fn(ObjectID) -> int {
        |id: ObjectID|
            if self.deleted_counts_as_input(id) {
                or_nothing(total_sui(self.input_object(store, id), balance))
            } else {
                0
            }
    }

    /// The tally of the written objects `ids`, one after the other.
    pub open spec fn tally_written<S: ObjectStore>(
        self,
        store: S,
        balance: spec_fn(MoveObjectView) -> SuiResult<u64>,
        ids: Seq<ObjectID>,
    ) -> Tally
        decreases ids.len(),
    {
        if ids.len() == 0 {
            Tally { input: 0, output: 0, failed: None }
        } else {
            let id = ids.last();
            let tally = self.tally_written(store, balance, ids.drop_last());
            let counted = if self.written_counts_as_input(id) {
                tally.with_input(total_sui(self.input_object(store, id), balance))
            } else {
                tally
            };
            counted.with_output(total_sui(self.written[id].0, balance))
        }
    }

    /// The tally of the deleted objects `ids`, one after the other, on top of `start`.
    pub open spec fn tally_deleted<S: ObjectStore>(
        self,
        store: S,
        balance: spec_fn(MoveObjectView) -> SuiResult<u64>,
        start: Tally,
        ids: Seq<ObjectID>,
    ) -> Tally
        decreases ids.len(),
    {
        if ids.len() == 0 {
            start
        } else {
            let id = ids.last();
            let tally = self.tally_deleted(store, balance, start, ids.drop_last());
            if self.deleted_counts_as_input(id) {
                tally.with_input(total_sui(self.input_object(store, id), balance))
            } else {
                tally
            }
        }
    }

    /// The tally of everything that was written and deleted, in the order of the ids.
    pub open spec fn tally<S: ObjectStore>(
        self,
        store: S,
        balance: spec_fn(MoveObjectView) -> SuiResult<u64>,
    ) -> Tally {
        self.tally_deleted(
            store,
            balance,
            self.tally_written(store, balance, ascending(self.written.dom())),
            ascending(self.deleted.dom()),
        )
    }

    /// What the transaction paid for gas, and nothing if it did not pay.
    pub open spec fn gas_summary(self) -> GasCostSummary {
        match self.gas_charged {
            Some((_, summary)) => summary,
            None => GasCostSummary { computation_cost: 0, storage_cost: 0, storage_rebate: 0 },
        }
    }

    /// The part of what was paid for gas that is in no object: the computation cost, and the part
    /// of the rebates that flows back into the storage fund. (The storage cost is in the storage
    /// rebates of the written objects.)
    pub open spec fn gas_in_no_object(self) -> int {
        let summary = self.gas_summary();
        summary.computation_cost + (summary.storage_rebate - rebate_for_sender(
            summary.storage_rebate,
            self.storage_rebate_rate,
        ))
    }

    /// The sum of the SUI in everything that was written or deleted, before the transaction.
    pub open spec fn sui_before<S: ObjectStore>(
        self,
        store: S,
        balance: spec_fn(MoveObjectView) -> SuiResult<u64>,
    ) -> int {
        sum_over(ascending(self.written.dom()), self.written_input(store, balance)) + sum_over(
            ascending(self.deleted.dom()),
            self.deleted_input(store, balance),
        )
    }

    /// The sum of the SUI in everything that was written, after the transaction.
    pub open spec fn sui_after(
        self,
        balance: spec_fn(MoveObjectView) -> SuiResult<u64>,
    ) -> int {
        sum_over(ascending(self.written.dom()), self.written_output(balance))
    }

    /// Whether SUI can be counted: up to where the count stops, every object that was changed or
    /// deleted existed before, at the version at which it was changed or deleted; and the machine
    /// has numbers for the sums.
    pub open spec fn may_count<S: ObjectStore>(
        self,
        store: S,
        balance: spec_fn(MoveObjectView) -> SuiResult<u64>,
        epoch_fees: int,
        epoch_rebates: int,
    ) -> bool {
        let written = ascending(self.written.dom());
        let deleted = ascending(self.deleted.dom());
        let start = self.tally_written(store, balance, written);
        &&& self.storage_rebate_rate <= BASIS_POINTS
        &&& forall|i: int|
            0 <= i < written.len() && self.tally_written(
                store,
                balance,
                written.take(i),
            ).failed is None && self.written_counts_as_input(#[trigger] written[i])
                ==> self.has_input(store, written[i], self.written[written[i]].0.version())
        &&& forall|i: int|
            0 <= i < deleted.len() && self.tally_deleted(
                store,
                balance,
                start,
                deleted.take(i),
            ).failed is None && self.deleted_counts_as_input(#[trigger] deleted[i])
                ==> self.has_input(store, deleted[i], self.deleted[deleted[i]].0)
        &&& self.sui_before(store, balance) + epoch_fees <= u64::MAX
        &&& self.sui_after(balance) + self.gas_in_no_object() + epoch_rebates <= u64::MAX
    }
}

impl Object {
    /// The SUI in the object and in its storage rebate. `balance` finds the SUI in a Move object
    /// that is no coin.
    pub fn get_total_sui<F: Fn(&MoveObject) -> SuiResult<u64>>(&self, balance: &F) -> (result:
        SuiResult<u64>)
        requires
            answers(*balance),
            or_nothing(total_sui(self@, answer_of(*balance))) <= u64::MAX,
        ensures
            result matches Ok(sui) ==> total_sui(self@, answer_of(*balance)) == Ok::<
                int,
                SuiError,
            >(sui as int),
            result matches Err(error) ==> total_sui(self@, answer_of(*balance)) == Err::<
                int,
                SuiError,
            >(error),
    {
        match &self.data {
            Data::Package(_) => Ok(self.storage_rebate),
            Data::Move(m) => {
                if let Some(coin) = self.as_gas_coin() {
                    return Ok(self.storage_rebate + coin.balance);
                }
                if let MoveObjectType::Coin(_) = &*m.type_ {
                    return Ok(self.storage_rebate);
                }
                let answer = balance(m);
                proof {
                    assert(call_ensures(*balance, (m,), answer));
                    assert(is_answer(*balance, m@, answer));
                    assert(is_answer(*balance, m@, answer_of(*balance)(m@)));
                }
                match answer {
                    Ok(sui) => Ok(self.storage_rebate + sui),
                    Err(error) => Err(error),
                }
            },
        }
    }
}

/// As long as nothing fails, the tally is the sums; and it never is more.
pub proof fn lemma_tally_written<S: ObjectStore>(
    s: StoreView,
    store: S,
    balance: spec_fn(MoveObjectView) -> SuiResult<u64>,
    ids: Seq<ObjectID>,
)
    ensures
        ({
            let tally = s.tally_written(store, balance, ids);
            let input = sum_over(ids, s.written_input(store, balance));
            let output = sum_over(ids, s.written_output(balance));
            &&& 0 <= tally.input <= input
            &&& 0 <= tally.output <= output
            &&& tally.failed is None ==> tally.input == input && tally.output == output
        }),
    decreases ids.len(),
{
    if ids.len() > 0 {
        lemma_tally_written(s, store, balance, ids.drop_last());
    }
}

/// As long as nothing fails, the tally is the sums.
pub proof fn lemma_tally_deleted<S: ObjectStore>(
    s: StoreView,
    store: S,
    balance: spec_fn(MoveObjectView) -> SuiResult<u64>,
    start: Tally,
    ids: Seq<ObjectID>,
)
    ensures
        ({
            let tally = s.tally_deleted(store, balance, start, ids);
            &&& tally.output == start.output
            &&& tally.input <= start.input + sum_over(ids, s.deleted_input(store, balance))
            &&& tally.failed is None ==> start.failed is None && tally.input == start.input
                + sum_over(ids, s.deleted_input(store, balance))
        }),
    decreases ids.len(),
{
    if ids.len() > 0 {
        lemma_tally_deleted(s, store, balance, start, ids.drop_last());
    }
}

/// What stops the count of what was written, stops it for good.
pub proof fn lemma_tally_written_stops<S: ObjectStore>(
    s: StoreView,
    store: S,
    balance: spec_fn(MoveObjectView) -> SuiResult<u64>,
    ids: Seq<ObjectID>,
    n: int,
)
    requires
        0 <= n <= ids.len(),
        s.tally_written(store, balance, ids.take(n)).failed is Some,
    ensures
        s.tally_written(store, balance, ids) == s.tally_written(store, balance, ids.take(n)),
    decreases ids.len() - n,
{
    if n < ids.len() {
        assert(ids.take(n + 1).drop_last() =~= ids.take(n));
        lemma_tally_written_stops(s, store, balance, ids, n + 1);
    } else {
        assert(ids.take(n) =~= ids);
    }
}

/// What stops the count of what was deleted, stops it for good.
pub proof fn lemma_tally_deleted_stops<S: ObjectStore>(
    s: StoreView,
    store: S,
    balance: spec_fn(MoveObjectView) -> SuiResult<u64>,
    start: Tally,
    ids: Seq<ObjectID>,
    n: int,
)
    requires
        0 <= n <= ids.len(),
        s.tally_deleted(store, balance, start, ids.take(n)).failed is Some,
    ensures
        s.tally_deleted(store, balance, start, ids) == s.tally_deleted(
            store,
            balance,
            start,
            ids.take(n),
        ),
    decreases ids.len() - n,
{
    if n < ids.len() {
        assert(ids.take(n + 1).drop_last() =~= ids.take(n));
        lemma_tally_deleted_stops(s, store, balance, start, ids, n + 1);
    } else {
        assert(ids.take(n) =~= ids);
    }
}

/// The verdict on a tally, with what else counts before and after the transaction.
pub open spec fn conservation_verdict(
    tally: Tally,
    more_input: int,
    more_output: int,
) -> SuiResult<()> {
    match tally.failed {
        Some(error) => Err(error),
        None => {
            let input = tally.input + more_input;
            let output = tally.output + more_output;
            if input == output {
                Ok(())
            } else {
                Err(SuiError::SuiNotConserved { input: input as u64, output: output as u64 })
            }
        },
    }
}

impl<S: ObjectStore> TemporaryStore<S> {
    /// The SUI in the object `id` before the transaction.
    fn get_input_sui<F: Fn(&MoveObject) -> SuiResult<u64>>(
        &self,
        id: &ObjectID,
        expected_version: SequenceNumber,
        balance: &F,
    ) -> (result: SuiResult<u64>)
        requires
            answers(*balance),
            self@.has_input(self.backing(), *id, expected_version),
            or_nothing(
                total_sui(self@.input_object(self.backing(), *id), answer_of(*balance)),
            ) <= u64::MAX,
        ensures
            result matches Ok(sui) ==> total_sui(
                self@.input_object(self.backing(), *id),
                answer_of(*balance),
            ) == Ok::<int, SuiError>(sui as int),
            result matches Err(error) ==> total_sui(
                self@.input_object(self.backing(), *id),
                answer_of(*balance),
            ) == Err::<int, SuiError>(error),
    {
        if let Some(object) = self.input_objects.get(id) {
            assert(self@.input_objects.contains_key(*id));
            return object.get_total_sui(balance);
        }
        assert(!self@.input_objects.contains_key(*id));
        let looked_up = self.store.get_object(id);
        assert(found(looked_up) == self.backing().object_at(*id));
        match looked_up {
            Ok(Some(object)) => object.get_total_sui(balance),
            Ok(None) => Err(SuiError::ObjectLayout),
            Err(error) => Err(error),
        }
    }

    /// The SUI in everything that was written, before and after the transaction.
    fn count_written<F: Fn(&MoveObject) -> SuiResult<u64>>(&self, balance: &F) -> (result: SuiResult<
        (u64, u64),
    >)
        requires
            self.wf(),
            answers(*balance),
            self@.may_count(self.backing(), answer_of(*balance), 0, 0),
        ensures
            ({
                let tally = self@.tally_written(
                    self.backing(),
                    answer_of(*balance),
                    ascending(self@.written.dom()),
                );
                match result {
                    Ok(totals) => tally == (Tally {
                        input: totals.0 as int,
                        output: totals.1 as int,
                        failed: None,
                    }),
                    Err(error) => tally.failed == Some(error),
                }
            }),
    {
        let ghost s = self@;
        let ghost store = self.backing();
        let ghost bal = answer_of(*balance);
        let mut total_input: u64 = 0;
        let mut total_output: u64 = 0;
        let ids = keys_in_order(&self.written);
        assert(s.written.dom() =~= self.written@.dom());
        proof {
            assert(ids@.take(0) =~= Seq::<ObjectID>::empty());
            assert(ids@.take(ids@.len() as int) =~= ids@);
            lemma_sum_prefix(
                ascending(s.deleted.dom()),
                s.deleted_input(store, bal),
                ascending(s.deleted.dom()).len() as int,
            );
            law_rebate_is_split(s.gas_summary().storage_rebate, s.storage_rebate_rate);
        }
        assert(s.gas_in_no_object() >= 0);
        assert(ascending(s.deleted.dom()).take(ascending(s.deleted.dom()).len() as int)
            =~= ascending(s.deleted.dom()));
        let mut i: usize = 0;
        while i < ids.len()
            invariant
                i <= ids@.len(),
                self.wf(),
                s == self@,
                store == self.backing(),
                bal == answer_of(*balance),
                answers(*balance),
                ids@ == ascending(s.written.dom()),
                ids@.take(ids@.len() as int) == ids@,
                s.may_count(store, bal, 0, 0),
                s.gas_in_no_object() >= 0,
                sum_over(ascending(s.deleted.dom()), s.deleted_input(store, bal)) >= 0,
                forall|j: int| 0 <= j < ids@.len() ==> s.written.contains_key(#[trigger] ids@[j]),
                s.tally_written(store, bal, ids@.take(i as int)) == (Tally {
                    input: total_input as int,
                    output: total_output as int,
                    failed: None,
                }),
            decreases ids@.len() - i,
        {
            let id: ObjectID = ids[i];
            let ghost prefix = ids@.take(i as int);
            let ghost longer = ids@.take(i + 1);
            proof {
                assert(s.written.contains_key(ids@[i as int]));
                assert(longer.drop_last() =~= prefix);
                lemma_tally_written(s, store, bal, prefix);
                lemma_sum_prefix(prefix, s.written_input(store, bal), 0);
                lemma_sum_prefix(prefix, s.written_output(bal), 0);
                lemma_sum_prefix(ids@, s.written_input(store, bal), i + 1);
                lemma_sum_prefix(ids@, s.written_output(bal), i + 1);
            }
            if let Some(entry) = self.written.get(&id) {
                if let WriteKind::Mutate = entry.1 {
                    match self.get_input_sui(&id, entry.0.version(), balance) {
                        Ok(sui) => {
                            total_input = total_input + sui;
                        },
                        Err(error) => {
                            proof {
                                lemma_tally_written_stops(s, store, bal, ids@, i + 1);
                            }
                            return Err(error);
                        },
                    }
                }
                match entry.0.get_total_sui(balance) {
                    Ok(sui) => {
                        total_output = total_output + sui;
                    },
                    Err(error) => {
                        proof {
                            lemma_tally_written_stops(s, store, bal, ids@, i + 1);
                        }
                        return Err(error);
                    },
                }
            }
            i = i + 1;
        }
        Ok((total_input, total_output))
    }

    /// The SUI before the transaction in everything that was written or deleted, of which
    /// `written_input` is in what was written.
    fn count_deleted<F: Fn(&MoveObject) -> SuiResult<u64>>(
        &self,
        written_input: u64,
        balance: &F,
    ) -> (result: SuiResult<u64>)
        requires
            self.wf(),
            answers(*balance),
            self@.may_count(self.backing(), answer_of(*balance), 0, 0),
            ({
                let start = self@.tally_written(
                    self.backing(),
                    answer_of(*balance),
                    ascending(self@.written.dom()),
                );
                start.failed is None && start.input == written_input
            }),
        ensures
            ({
                let tally = self@.tally(self.backing(), answer_of(*balance));
                match result {
                    Ok(total) => tally.failed is None && tally.input == total,
                    Err(error) => tally.failed == Some(error),
                }
            }),
    {
        let ghost s = self@;
        let ghost store = self.backing();
        let ghost bal = answer_of(*balance);
        let ghost start = s.tally_written(store, bal, ascending(s.written.dom()));
        let mut total: u64 = written_input;
        let ids = keys_in_order(&self.deleted);
        proof {
            assert(ids@.take(0) =~= Seq::<ObjectID>::empty());
            assert(ids@.take(ids@.len() as int) =~= ids@);
            lemma_tally_written(s, store, bal, ascending(s.written.dom()));
        }
        let mut k: usize = 0;
        while k < ids.len()
            invariant
                k <= ids@.len(),
                self.wf(),
                s == self@,
                store == self.backing(),
                bal == answer_of(*balance),
                answers(*balance),
                start == s.tally_written(store, bal, ascending(s.written.dom())),
                start.failed is None,
                start.input == sum_over(
                    ascending(s.written.dom()),
                    s.written_input(store, bal),
                ),
                start.input >= 0,
                ids@ == ascending(s.deleted.dom()),
                ids@.take(ids@.len() as int) == ids@,
                s.may_count(store, bal, 0, 0),
                forall|j: int| 0 <= j < ids@.len() ==> s.deleted.contains_key(#[trigger] ids@[j]),
                s.tally_deleted(store, bal, start, ids@.take(k as int)).input == total,
                s.tally_deleted(store, bal, start, ids@.take(k as int)).failed is None,
            decreases ids@.len() - k,
        {
            let id: ObjectID = ids[k];
            let ghost prefix = ids@.take(k as int);
            proof {
                assert(s.deleted.contains_key(ids@[k as int]));
                assert(ids@.take(k + 1).drop_last() =~= prefix);
                lemma_tally_deleted(s, store, bal, start, prefix);
                lemma_sum_prefix(prefix, s.deleted_input(store, bal), 0);
                lemma_sum_prefix(ids@, s.deleted_input(store, bal), k + 1);
            }
            if let Some(entry) = self.deleted.get(&id) {
                match entry.1 {
                    DeleteKind::Normal | DeleteKind::Wrap => {
                        match self.get_input_sui(&id, entry.0, balance) {
                            Ok(sui) => {
                                total = total + sui;
                            },
                            Err(error) => {
                                proof {
                                    lemma_tally_deleted_stops(s, store, bal, start, ids@, k + 1);
                                }
                                return Err(error);
                            },
                        }
                    },
                    DeleteKind::UnwrapThenDelete => {},
                }
            }
            k = k + 1;
        }
        Ok(total)
    }

    /// Checks that the transaction neither creates nor destroys SUI. This is meant to be called
    /// after gas was charged for, and before the versions of the written objects are set.
    ///
    /// Only the transaction that ends an epoch does: it mints the fees of the epoch and burns its
    /// rebates, which are given then. `balance` finds the SUI in a Move object that is no coin.
    pub fn check_sui_conserved<F: Fn(&MoveObject) -> SuiResult<u64>>(
        &self,
        advance_epoch_gas_summary: Option<(u64, u64)>,
        balance: &F,
    ) -> (result: SuiResult<()>)
        requires
            self.wf(),
            answers(*balance),
            self@.may_count(
                self.backing(),
                answer_of(*balance),
                epoch_fees(advance_epoch_gas_summary),
                epoch_rebates(advance_epoch_gas_summary),
            ),
        ensures
            result == conservation_verdict(
                self@.tally(self.backing(), answer_of(*balance)),
                epoch_fees(advance_epoch_gas_summary),
                self@.gas_in_no_object() + epoch_rebates(advance_epoch_gas_summary),
            ),
    {
        let ghost s = self@;
        let ghost store = self.backing();
        let ghost bal = answer_of(*balance);
        let ghost start = s.tally_written(store, bal, ascending(s.written.dom()));
        let ghost deleted = ascending(s.deleted.dom());
        let (written_input, written_output) = match self.count_written(balance) {
            Ok(totals) => totals,
            Err(error) => {
                proof {
                    assert(deleted.take(0) =~= Seq::<ObjectID>::empty());
                    lemma_tally_deleted_stops(s, store, bal, start, deleted, 0);
                }
                return Err(error);
            },
        };
        let mut total_input: u64 = match self.count_deleted(written_input, balance) {
            Ok(total) => total,
            Err(error) => {
                return Err(error);
            },
        };
        let mut total_output: u64 = written_output;
        proof {
            lemma_tally_written(s, store, bal, ascending(s.written.dom()));
            lemma_tally_deleted(s, store, bal, start, deleted);
        }
        let summary = match self.gas_charged {
            Some((_, summary)) => summary,
            None => GasCostSummary::default(),
        };
        let inflow: u64 = summary.storage_fund_rebate_inflow(self.storage_rebate_rate);
        assert(s.gas_in_no_object() == summary.computation_cost + inflow);
        total_output = total_output + (summary.computation_cost + inflow);
        if let Some((fees, rebates)) = advance_epoch_gas_summary {
            total_input = total_input + fees;
            total_output = total_output + rebates;
        }
        if total_input != total_output {
            return Err(SuiError::SuiNotConserved { input: total_input, output: total_output });
        }
        Ok(())
    }
}

/// What the transaction that ends an epoch mints.
pub open spec fn epoch_fees(summary: Option<(u64, u64)>) -> int {
    match summary {
        Some((fees, _)) => fees as int,
        None => 0,
    }
}

/// What the transaction that ends an epoch burns.
pub open spec fn epoch_rebates(summary: Option<(u64, u64)>) -> int {
    match summary {
        Some((_, rebates)) => rebates as int,
        None => 0,
    }
}

} // verus!

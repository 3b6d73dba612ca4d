use crate::base_types::ObjectID;
use crate::coin::{law_balance_is_in_the_last_bytes, lemma_coin_balance_fits};
use crate::error::{SuiError, SuiResult};
use crate::move_types::MoveObjectType;
use crate::object::{DataView, MoveObject, MoveObjectView, ObjectView};
use crate::order::{ascending, lemma_ascending};
use crate::storage::{DeleteKind, ObjectStore, WriteKind};
use crate::sums::sum_over;
use crate::temporary_store::conserve::{
    answer_of, answers, conservation_verdict, epoch_fees, epoch_rebates, is_answer,
    lemma_tally_deleted_stops, lemma_tally_written_stops, total_sui, Tally,
};
use crate::temporary_store::model::StoreView;
use crate::temporary_store::ownership_laws::stored;
use vstd::prelude::*;

verus! {

/// What the eight bytes after the id of a coin count, the lowest first.
pub open spec fn balance_bytes(contents: Seq<u8>) -> int {
    contents[32] + 0x100 * contents[33] + 0x1_0000 * contents[34] + 0x100_0000 * contents[35]
        + 0x1_0000_0000 * contents[36] + 0x100_0000_0000 * contents[37] + 0x1_0000_0000_0000
        * contents[38] + 0x100_0000_0000_0000 * contents[39]
}

/// What an object is worth in SUI: its storage rebate, and with it the balance of a SUI coin or what
/// `balance` finds in a Move object that is no coin. Nothing, if that cannot be found.
pub open spec fn worth(
    object: ObjectView,
    balance: spec_fn(MoveObjectView) -> SuiResult<u64>,
) -> Option<int> {
    match object.data {
        DataView::Package(_) => Some(object.storage_rebate as int),
        DataView::Move(m) => match m.type_ {
            MoveObjectType::Coin(_) => Some(object.storage_rebate as int),
            _ => if m.type_ == MoveObjectType::GasCoin && m.contents.len() == 40 {
                Some(object.storage_rebate + balance_bytes(m.contents))
            } else {
                match balance(m) {
                    Ok(sui) => Some(object.storage_rebate + sui),
                    Err(_) => None,
                }
            },
        },
    }
}

/// The object `id` as it was before the transaction.
pub open spec fn before<S: ObjectStore>(s: StoreView, store: S, id: ObjectID) -> ObjectView {
    if s.input_objects.contains_key(id) {
        s.input_objects[id]
    } else {
        stored(store, id)->0
    }
}

/// Whether the written object `id` existed before.
pub open spec fn was_changed(s: StoreView, id: ObjectID) -> bool {
    s.written[id].1 == WriteKind::Mutate
}

/// Whether the deleted object `id` was an object of its own before.
pub open spec fn was_removed(s: StoreView, id: ObjectID) -> bool {
    s.deleted[id].1 == DeleteKind::Normal || s.deleted[id].1 == DeleteKind::Wrap
}

/// Whether the worth of the object `id` before the transaction can be found: it existed, and its
/// worth can be found.
pub open spec fn had_worth<S: ObjectStore>(
    s: StoreView,
    store: S,
    balance: spec_fn(MoveObjectView) -> SuiResult<u64>,
    id: ObjectID,
) -> bool {
    &&& s.input_objects.contains_key(id) || stored(store, id) is Some
    &&& worth(before(s, store, id), balance) is Some
}

/// Whether the worth of everything can be found, that was written or deleted.
pub open spec fn is_countable<S: ObjectStore>(
    s: StoreView,
    store: S,
    balance: spec_fn(MoveObjectView) -> SuiResult<u64>,
) -> bool {
    &&& forall|id: ObjectID| #[trigger]
        s.written.contains_key(id) ==> worth(s.written[id].0, balance) is Some && (was_changed(
            s,
            id,
        ) ==> had_worth(s, store, balance, id))
    &&& forall|id: ObjectID| #[trigger]
        s.deleted.contains_key(id) && was_removed(s, id) ==> had_worth(s, store, balance, id)
}

/// The worth before the transaction of a written object.
pub open spec fn written_worth_before<S: ObjectStore>(
    s: StoreView,
    store: S,
    balance: spec_fn(MoveObjectView) -> SuiResult<u64>,
) -> spec_fn(ObjectID) -> int {
    |id: ObjectID|
        if was_changed(s, id) {
            worth(before(s, store, id), balance)->0
        } else {
            0
        }
}

/// The worth before the transaction of a deleted object.
pub open spec fn deleted_worth_before<S: ObjectStore>(
    s: StoreView,
    store: S,
    balance: spec_fn(MoveObjectView) -> SuiResult<u64>,
) -> spec_fn(ObjectID) -> int {
    |id: ObjectID|
        if was_removed(s, id) {
            worth(before(s, store, id), balance)->0
        } else {
            0
        }
}

/// The worth after the transaction of a written object.
pub open spec fn worth_after(
    s: StoreView,
    balance: spec_fn(MoveObjectView) -> SuiResult<u64>,
) -> spec_fn(ObjectID) -> int {
    |id: ObjectID| worth(s.written[id].0, balance)->0
}

/// What was paid for gas and is in no object: what the computation cost, and the storage rebates
/// but for the sender's share of them, which is rounded to the nearest.
pub open spec fn kept_from_gas(s: StoreView) -> int {
    match s.gas_charged {
        None => 0,
        Some((_, paid)) => paid.computation_cost + paid.storage_rebate - (paid.storage_rebate
            * s.storage_rebate_rate + 5000) / 10000,
    }
}

/// The SUI in an object is what it is worth, and is an error just if its worth cannot be found.
pub proof fn law_total_is_the_worth(
    object: ObjectView,
    balance: spec_fn(MoveObjectView) -> SuiResult<u64>,
)
    ensures
        total_sui(object, balance) is Ok <==> worth(object, balance) is Some,
        worth(object, balance) is Some ==> total_sui(object, balance) == Ok::<int, SuiError>(
            worth(object, balance)->0,
        ),
        total_sui(object, balance) matches Err(error) ==> object.data is Move && balance(
            object.data->Move_0,
        ) == Err::<u64, SuiError>(error),
{
    if let DataView::Move(m) = object.data {
        law_balance_is_in_the_last_bytes(m.contents);
        if m.contents.len() == 40 {
            lemma_coin_balance_fits(m.contents);
        }
    }
}

/// What the function says of a Move object is what is counted in it.
pub proof fn law_answer_is_counted<F: Fn(&MoveObject) -> SuiResult<u64>>(
    f: F,
    m: MoveObject,
    answer: SuiResult<u64>,
)
    requires
        answers(f),
        call_ensures(f, (&m,), answer),
    ensures
        answer_of(f)(m@) == answer,
{
    assert(is_answer(f, m@, answer));
    let counted = answer_of(f)(m@);
    assert(is_answer(f, m@, counted));
}

proof fn lemma_written_count<S: ObjectStore>(
    s: StoreView,
    store: S,
    balance: spec_fn(MoveObjectView) -> SuiResult<u64>,
    ids: Seq<ObjectID>,
)
    requires
        forall|i: int|
            0 <= i < ids.len() ==> worth(s.written[#[trigger] ids[i]].0, balance) is Some && (
            was_changed(s, ids[i]) ==> had_worth(s, store, balance, ids[i])),
    ensures
        s.tally_written(store, balance, ids) == (Tally {
            input: sum_over(ids, written_worth_before(s, store, balance)),
            output: sum_over(ids, worth_after(s, balance)),
            failed: None,
        }),
    decreases ids.len(),
{
    if ids.len() > 0 {
        let rest = ids.drop_last();
        let id = ids[ids.len() - 1];
        assert forall|i: int| 0 <= i < rest.len() implies worth(
            s.written[#[trigger] rest[i]].0,
            balance,
        ) is Some && (was_changed(s, rest[i]) ==> had_worth(s, store, balance, rest[i])) by {
            assert(rest[i] == ids[i]);
        }
        lemma_written_count(s, store, balance, rest);
        law_total_is_the_worth(s.written[id].0, balance);
        law_total_is_the_worth(before(s, store, id), balance);
    }
}

proof fn lemma_deleted_count<S: ObjectStore>(
    s: StoreView,
    store: S,
    balance: spec_fn(MoveObjectView) -> SuiResult<u64>,
    start: Tally,
    ids: Seq<ObjectID>,
)
    requires
        start.failed is None,
        forall|i: int|
            0 <= i < ids.len() && was_removed(s, #[trigger] ids[i]) ==> had_worth(
                s,
                store,
                balance,
                ids[i],
            ),
    ensures
        s.tally_deleted(store, balance, start, ids) == (Tally {
            input: start.input + sum_over(ids, deleted_worth_before(s, store, balance)),
            output: start.output,
            failed: None,
        }),
    decreases ids.len(),
{
    if ids.len() > 0 {
        let rest = ids.drop_last();
        let id = ids[ids.len() - 1];
        assert forall|i: int| 0 <= i < rest.len() && was_removed(
            s,
            #[trigger] rest[i],
        ) implies had_worth(s, store, balance, rest[i]) by {
            assert(rest[i] == ids[i]);
        }
        lemma_deleted_count(s, store, balance, start, rest);
        law_total_is_the_worth(before(s, store, id), balance);
    }
}

/// The check that SUI is conserved succeeds just if it is. Where the worth of everything can be
/// found, what there was before, with what the end of an epoch mints, is what there is after, with
/// what was kept from gas and what the end of an epoch burns. If it is not, both sums are reported.
pub proof fn law_check_succeeds_just_if_sui_is_conserved<S: ObjectStore>(
    s: StoreView,
    store: S,
    balance: spec_fn(MoveObjectView) -> SuiResult<u64>,
    epoch: Option<(u64, u64)>,
)
    requires
        s.written.dom().finite(),
        s.deleted.dom().finite(),
        is_countable(s, store, balance),
    ensures
        ({
            let (minted, burned) = match epoch {
                Some((fees, rebates)) => (fees as int, rebates as int),
                None => (0, 0),
            };
            let input = sum_over(
                ascending(s.written.dom()),
                written_worth_before(s, store, balance),
            ) + sum_over(ascending(s.deleted.dom()), deleted_worth_before(s, store, balance))
                + minted;
            let output = sum_over(ascending(s.written.dom()), worth_after(s, balance))
                + kept_from_gas(s) + burned;
            let verdict = conservation_verdict(
                s.tally(store, balance),
                epoch_fees(epoch),
                s.gas_in_no_object() + epoch_rebates(epoch),
            );
            &&& verdict is Ok <==> input == output
            &&& input != output ==> verdict == Err::<(), SuiError>(
                SuiError::SuiNotConserved { input: input as u64, output: output as u64 },
            )
        }),
{
    let written = ascending(s.written.dom());
    let deleted = ascending(s.deleted.dom());
    lemma_ascending(s.written.dom());
    lemma_ascending(s.deleted.dom());
    assert forall|i: int| 0 <= i < written.len() implies worth(
        s.written[#[trigger] written[i]].0,
        balance,
    ) is Some && (was_changed(s, written[i]) ==> had_worth(s, store, balance, written[i])) by {
        assert(s.written.dom().contains(written[i]));
        assert(s.written.contains_key(written[i]));
    }
    assert forall|i: int| 0 <= i < deleted.len() && was_removed(
        s,
        #[trigger] deleted[i],
    ) implies had_worth(s, store, balance, deleted[i]) by {
        assert(s.deleted.dom().contains(deleted[i]));
        assert(s.deleted.contains_key(deleted[i]));
    }
    lemma_written_count(s, store, balance, written);
    lemma_deleted_count(
        s,
        store,
        balance,
        s.tally_written(store, balance, written),
        deleted,
    );
    assert(0 * s.storage_rebate_rate == 0) by (nonlinear_arith);
    assert(s.gas_in_no_object() == kept_from_gas(s));
}

proof fn lemma_written_count_fails<S: ObjectStore>(
    s: StoreView,
    store: S,
    balance: spec_fn(MoveObjectView) -> SuiResult<u64>,
    ids: Seq<ObjectID>,
)
    ensures
        s.tally_written(store, balance, ids).failed matches Some(error) ==> exists|
            m: MoveObjectView,
        | #[trigger] balance(m) == Err::<u64, SuiError>(error),
        s.tally_written(store, balance, ids).failed is None ==> forall|i: int|
            0 <= i < ids.len() ==> worth(s.written[#[trigger] ids[i]].0, balance) is Some,
    decreases ids.len(),
{
    if ids.len() > 0 {
        let rest = ids.drop_last();
        let id = ids[ids.len() - 1];
        lemma_written_count_fails(s, store, balance, rest);
        law_total_is_the_worth(s.written[id].0, balance);
        law_total_is_the_worth(s.input_object(store, id), balance);
        assert forall|i: int| 0 <= i < rest.len() implies #[trigger] rest[i] == ids[i] by {
        }
        if s.tally_written(store, balance, ids).failed is None {
            assert forall|i: int| 0 <= i < ids.len() implies worth(
                s.written[#[trigger] ids[i]].0,
                balance,
            ) is Some by {
                if i < rest.len() {
                    assert(rest[i] == ids[i]);
                    assert(worth(s.written[rest[i]].0, balance) is Some);
                }
            }
        }
    }
}

proof fn lemma_deleted_count_fails<S: ObjectStore>(
    s: StoreView,
    store: S,
    balance: spec_fn(MoveObjectView) -> SuiResult<u64>,
    start: Tally,
    ids: Seq<ObjectID>,
)
    ensures
        start.failed is Some ==> s.tally_deleted(store, balance, start, ids) == start,
        start.failed is None ==> (s.tally_deleted(store, balance, start, ids).failed matches Some(
            error,
        ) ==> exists|m: MoveObjectView| #[trigger] balance(m) == Err::<u64, SuiError>(error)),
    decreases ids.len(),
{
    if ids.len() > 0 {
        let rest = ids.drop_last();
        let id = ids[ids.len() - 1];
        lemma_deleted_count_fails(s, store, balance, start, rest);
        law_total_is_the_worth(s.input_object(store, id), balance);
    }
}

/// Where the worth of a written object cannot be found, the check fails, and with an error with
/// which the worth of some object could not be found.
pub proof fn law_uncountable_sui_is_an_error<S: ObjectStore>(
    s: StoreView,
    store: S,
    balance: spec_fn(MoveObjectView) -> SuiResult<u64>,
    more_input: int,
    more_output: int,
    id: ObjectID,
)
    requires
        s.written.dom().finite(),
        s.written.contains_key(id),
        worth(s.written[id].0, balance) is None,
    ensures
        ({
            let verdict = conservation_verdict(s.tally(store, balance), more_input, more_output);
            &&& verdict is Err
            &&& exists|m: MoveObjectView| #[trigger]
                balance(m) == Err::<u64, SuiError>(verdict->Err_0)
        }),
{
    let written = ascending(s.written.dom());
    let deleted = ascending(s.deleted.dom());
    lemma_ascending(s.written.dom());
    lemma_written_count_fails(s, store, balance, written);
    let start = s.tally_written(store, balance, written);
    lemma_deleted_count_fails(s, store, balance, start, deleted);
    assert(s.written.dom().contains(id));
    let i = choose|i: int| 0 <= i < written.len() && written[i] == id;
    assert(worth(s.written[written[i]].0, balance) is None);
}

/// The first written object whose worth cannot be found decides the error of the check: its worth
/// before, if it was changed, comes before its worth after.
pub proof fn law_first_uncountable_decides<S: ObjectStore>(
    s: StoreView,
    store: S,
    balance: spec_fn(MoveObjectView) -> SuiResult<u64>,
    more_input: int,
    more_output: int,
    i: int,
)
    requires
        0 <= i < ascending(s.written.dom()).len(),
        forall|j: int|
            0 <= j < i ==> worth(
                s.written[#[trigger] ascending(s.written.dom())[j]].0,
                balance,
            ) is Some && (was_changed(s, ascending(s.written.dom())[j]) ==> had_worth(
                s,
                store,
                balance,
                ascending(s.written.dom())[j],
            )),
    ensures
        ({
            let id = ascending(s.written.dom())[i];
            let verdict = conservation_verdict(s.tally(store, balance), more_input, more_output);
            let existed = s.input_objects.contains_key(id) || stored(store, id) is Some;
            &&& was_changed(s, id) && existed && worth(before(s, store, id), balance) is None
                ==> verdict is Err && balance(before(s, store, id).data->Move_0) == Err::<
                u64,
                SuiError,
            >(verdict->Err_0)
            &&& (was_changed(s, id) ==> had_worth(s, store, balance, id)) && worth(
                s.written[id].0,
                balance,
            ) is None ==> verdict is Err && balance(s.written[id].0.data->Move_0) == Err::<
                u64,
                SuiError,
            >(verdict->Err_0)
        }),
{
    let ids = ascending(s.written.dom());
    let id = ids[i];
    let prefix = ids.take(i);
    assert forall|j: int| 0 <= j < prefix.len() implies worth(
        s.written[#[trigger] prefix[j]].0,
        balance,
    ) is Some && (was_changed(s, prefix[j]) ==> had_worth(s, store, balance, prefix[j])) by {
        assert(prefix[j] == ids[j]);
    }
    lemma_written_count(s, store, balance, prefix);
    assert(ids.take(i + 1).drop_last() =~= prefix);
    assert(ids.take(i + 1).last() == id);
    law_total_is_the_worth(before(s, store, id), balance);
    law_total_is_the_worth(s.written[id].0, balance);
    if s.tally_written(store, balance, ids.take(i + 1)).failed is Some {
        lemma_tally_written_stops(s, store, balance, ids, i + 1);
        lemma_deleted_count_fails(
            s,
            store,
            balance,
            s.tally_written(store, balance, ids),
            ascending(s.deleted.dom()),
        );
    }
}

/// Where the worth of everything written can be found, the first deleted object whose worth before
/// cannot be found decides the error of the check.
pub proof fn law_first_uncountable_deletion_decides<S: ObjectStore>(
    s: StoreView,
    store: S,
    balance: spec_fn(MoveObjectView) -> SuiResult<u64>,
    more_input: int,
    more_output: int,
    i: int,
)
    requires
        s.written.dom().finite(),
        forall|id: ObjectID| #[trigger]
            s.written.contains_key(id) ==> worth(s.written[id].0, balance) is Some && (was_changed(
                s,
                id,
            ) ==> had_worth(s, store, balance, id)),
        0 <= i < ascending(s.deleted.dom()).len(),
        forall|j: int|
            0 <= j < i && was_removed(s, #[trigger] ascending(s.deleted.dom())[j]) ==> had_worth(
                s,
                store,
                balance,
                ascending(s.deleted.dom())[j],
            ),
        ({
            let id = ascending(s.deleted.dom())[i];
            &&& was_removed(s, id)
            &&& s.input_objects.contains_key(id) || stored(store, id) is Some
            &&& worth(before(s, store, id), balance) is None
        }),
    ensures
        ({
            let id = ascending(s.deleted.dom())[i];
            let verdict = conservation_verdict(s.tally(store, balance), more_input, more_output);
            verdict is Err && balance(before(s, store, id).data->Move_0) == Err::<u64, SuiError>(
                verdict->Err_0,
            )
        }),
{
    let written = ascending(s.written.dom());
    let ids = ascending(s.deleted.dom());
    let id = ids[i];
    let prefix = ids.take(i);
    lemma_ascending(s.written.dom());
    assert forall|j: int| 0 <= j < written.len() implies worth(
        s.written[#[trigger] written[j]].0,
        balance,
    ) is Some && (was_changed(s, written[j]) ==> had_worth(s, store, balance, written[j])) by {
        assert(s.written.dom().contains(written[j]));
        assert(s.written.contains_key(written[j]));
    }
    lemma_written_count(s, store, balance, written);
    let start = s.tally_written(store, balance, written);
    assert forall|j: int| 0 <= j < prefix.len() && was_removed(
        s,
        #[trigger] prefix[j],
    ) implies had_worth(s, store, balance, prefix[j]) by {
        assert(prefix[j] == ids[j]);
    }
    lemma_deleted_count(s, store, balance, start, prefix);
    assert(ids.take(i + 1).drop_last() =~= prefix);
    assert(ids.take(i + 1).last() == id);
    law_total_is_the_worth(before(s, store, id), balance);
    lemma_tally_deleted_stops(s, store, balance, start, ids, i + 1);
}

} // verus!

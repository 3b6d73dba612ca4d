use crate::base_types::{
    spec_is_system_package, ObjectDigest, ObjectID, ObjectRef, SequenceNumber, TransactionDigest,
    MAX_VERSION, MIN_VERSION, NO_OBJECT, SUI_SYSTEM_STATE_OBJECT_ID,
};
use crate::bytes::be_value;
use crate::codec::PAIR_LENGTH;
use crate::error::{ExecutionError, SuiError, SuiResult};
use crate::event::Event;
use crate::gas::BASIS_POINTS;
use crate::input_objects::{
    highest_version, mutable_refs, object_map, InputObject, InputObjectKind, InputObjects,
};
use crate::move_types::{
    object_is_of_type, object_type_size, params_size, same_struct, same_type, struct_size,
    type_size, uleb_size, MoveObjectType, StructTag, TypeTag,
};
use crate::object::{
    id_of_bytes, modules_size, Data, DataView, Object, ObjectView, Owner, SerializedModule,
};
use crate::protocol_config::ProtocolConfig;
use crate::publish::PUBLISH_GAS_UNITS;
use crate::storage::{found, DeleteKind, ObjectChange, ObjectChangeView, WriteKind};
use crate::temporary_store::commit_laws::version_in;
use crate::temporary_store::model::{object_views, StoreView};
use crate::temporary_store::settle::error_of;
use crate::temporary_store::{change_views, fresh};
use vstd::prelude::*;

verus! {

/// The id of an object: that of a package, and of a Move object the one in its first 32 bytes.
pub open spec fn id_in(data: DataView) -> ObjectID {
    match data {
        DataView::Move(m) => id_of_bytes(m.contents),
        DataView::Package(p) => p.id,
    }
}

/// Writing an object enters it under its id, as it is but for the record of the transaction that
/// wrote it, and as written in that way. Nothing else of the store changes.
pub proof fn law_write_enters_the_object(
    s: StoreView,
    object: ObjectView,
    kind: WriteKind,
    id: ObjectID,
)
    ensures
        ({
            let after = s.write_object(object, kind);
            let entry = after.written[id_in(object.data)];
            &&& after.written.contains_key(id_in(object.data))
            &&& entry.1 == kind
            &&& entry.0.data == object.data
            &&& entry.0.owner == object.owner
            &&& entry.0.storage_rebate == object.storage_rebate
            &&& entry.0.previous_transaction == s.tx_digest
            &&& id != id_in(object.data) ==> (after.written.contains_key(id)
                <==> s.written.contains_key(id)) && after.written[id] == s.written[id]
            &&& after.deleted == s.deleted
            &&& after.input_objects == s.input_objects
            &&& after.mutable_inputs == s.mutable_inputs
            &&& after.events == s.events
            &&& after.tx_digest == s.tx_digest
            &&& after.lamport_timestamp == s.lamport_timestamp
            &&& after.gas_charged == s.gas_charged
            &&& after.storage_rebate_rate == s.storage_rebate_rate
            &&& after.protocol_config == s.protocol_config
        }),
{
}

/// Deleting an object enters its version and the way in which it was deleted under its id. Nothing
/// else of the store changes.
pub proof fn law_delete_enters_the_version(
    s: StoreView,
    id: ObjectID,
    version: SequenceNumber,
    kind: DeleteKind,
    other: ObjectID,
)
    ensures
        ({
            let after = s.delete_object(id, version, kind);
            &&& after.deleted.contains_key(id)
            &&& after.deleted[id] == (version, kind)
            &&& other != id ==> (after.deleted.contains_key(other) <==> s.deleted.contains_key(
                other,
            )) && after.deleted[other] == s.deleted[other]
            &&& after.written == s.written
            &&& after.input_objects == s.input_objects
            &&& after.mutable_inputs == s.mutable_inputs
            &&& after.events == s.events
            &&& after.tx_digest == s.tx_digest
            &&& after.lamport_timestamp == s.lamport_timestamp
            &&& after.gas_charged == s.gas_charged
            &&& after.storage_rebate_rate == s.storage_rebate_rate
            &&& after.protocol_config == s.protocol_config
        }),
{
}

/// Dropping what was written leaves nothing written, deleted or emitted, and everything else.
pub proof fn law_drop_leaves_nothing_done(s: StoreView, id: ObjectID)
    ensures
        ({
            let after = s.drop_writes();
            &&& !after.written.contains_key(id)
            &&& !after.deleted.contains_key(id)
            &&& after.events.len() == 0
            &&& after.input_objects == s.input_objects
            &&& after.mutable_inputs == s.mutable_inputs
            &&& after.tx_digest == s.tx_digest
            &&& after.lamport_timestamp == s.lamport_timestamp
            &&& after.gas_charged == s.gas_charged
            &&& after.storage_rebate_rate == s.storage_rebate_rate
            &&& after.protocol_config == s.protocol_config
        }),
{
}

/// An unpaid storage rebate becomes the storage rebate of the object `0x5`, which is written as
/// changed and stays otherwise as it was read. Where there is none, or in a gas model before the
/// second one, nothing changes; and nothing else ever does.
pub proof fn law_unpaid_rebate_goes_to_the_system_state(s: StoreView, rebate: u64, id: ObjectID)
    requires
        s.written.contains_key((0u128, 5u128)) ==> id_in(s.written[(0u128, 5u128)].0.data) == (
            0u128,
            5u128,
        ),
        !s.written.contains_key((0u128, 5u128)) ==> id_in(
            s.input_objects[(0u128, 5u128)].data,
        ) == (0u128, 5u128),
        s.written.contains_key((0u128, 5u128)) || s.input_objects.contains_key((0u128, 5u128)),
    ensures
        ({
            let state = (0u128, 5u128);
            let after = s.conserve_rebate(rebate);
            let read = if s.written.contains_key(state) {
                s.written[state].0
            } else {
                s.input_objects[state]
            };
            let entry = after.written[state];
            &&& rebate == 0 || s.protocol_config.gas_model_version < 2 ==> after == s
            &&& rebate != 0 && s.protocol_config.gas_model_version >= 2 ==> {
                &&& after.written.contains_key(state)
                &&& entry.1 == WriteKind::Mutate
                &&& entry.0.storage_rebate == rebate
                &&& entry.0.data == read.data
                &&& entry.0.owner == read.owner
                &&& entry.0.previous_transaction == s.tx_digest
            }
            &&& id != state ==> (after.written.contains_key(id) <==> s.written.contains_key(id))
                && after.written[id] == s.written[id]
            &&& after == (StoreView { written: after.written, ..s })
        }),
{
}

/// The inputs by their ids are just the inputs, and where two have one id, the later one counts.
pub proof fn law_inputs_are_found_by_their_ids(inputs: Seq<InputObject>, id: ObjectID)
    ensures
        object_map(inputs).contains_key(id) <==> exists|i: int|
            0 <= i < inputs.len() && id_in((#[trigger] inputs[i]).object@.data) == id,
        object_map(inputs).contains_key(id) ==> exists|i: int|
            #![trigger inputs[i]]
            0 <= i < inputs.len() && id_in(inputs[i].object@.data) == id && object_map(inputs)[id]
                == inputs[i].object@ && forall|j: int|
                i < j < inputs.len() ==> id_in((#[trigger] inputs[j]).object@.data) != id,
    decreases inputs.len(),
{
    if inputs.len() > 0 {
        let rest = inputs.drop_last();
        let n = inputs.len() - 1;
        law_inputs_are_found_by_their_ids(rest, id);
        if id_in(inputs[n].object@.data) == id {
            assert(object_map(inputs)[id] == inputs[n].object@);
        } else if object_map(rest).contains_key(id) {
            let i = choose|i: int|
                #![trigger rest[i]]
                0 <= i < rest.len() && id_in(rest[i].object@.data) == id && object_map(rest)[id]
                    == rest[i].object@ && forall|j: int|
                    i < j < rest.len() ==> id_in((#[trigger] rest[j]).object@.data) != id;
            assert(inputs[i] == rest[i]);
            assert forall|j: int| i < j < inputs.len() implies id_in(
                (#[trigger] inputs[j]).object@.data,
            ) != id by {
                if j < n {
                    assert(inputs[j] == rest[j]);
                }
            }
        }
        if exists|i: int| 0 <= i < inputs.len() && id_in((#[trigger] inputs[i]).object@.data) == id {
            let i = choose|i: int|
                0 <= i < inputs.len() && id_in((#[trigger] inputs[i]).object@.data) == id;
            if i < n {
                assert(rest[i] == inputs[i]);
            }
        }
    }
}

/// Whether the transaction may change an input under the reference `r`: an owned object that is not
/// immutable, under the reference that the transaction names; and a shared one that it names as
/// mutable, under the version and the digest it was loaded with.
pub open spec fn may_change_as(input: InputObject, r: ObjectRef) -> bool {
    match input.kind {
        InputObjectKind::MovePackage(_) => false,
        InputObjectKind::ImmOrOwnedMoveObject(named) => r == named && input.object.owner
            != Owner::Immutable,
        InputObjectKind::SharedMoveObject { mutable, .. } => mutable && r == (
            id_in(input.object@.data),
            version_in(input.object@.data),
            input.digest,
        ),
    }
}

/// The inputs that a transaction may change are just those that it names as such.
pub proof fn law_mutable_inputs_are_those_named(inputs: Seq<InputObject>, r: ObjectRef)
    ensures
        mutable_refs(inputs).contains(r) <==> exists|i: int|
            0 <= i < inputs.len() && may_change_as(#[trigger] inputs[i], r),
{
    lemma_mutable_refs_contain(inputs, r);
}

/// The inputs that a transaction may change are in the order of the inputs, each as often as it is
/// one: those of more inputs are those of the first ones and then those of the rest, and one input
/// gives at most one.
pub proof fn law_mutable_inputs_are_in_order(first: Seq<InputObject>, rest: Seq<InputObject>)
    ensures
        mutable_refs(first + rest) == mutable_refs(first) + mutable_refs(rest),
        rest.len() == 1 ==> mutable_refs(rest).len() <= 1,
    decreases rest.len(),
{
    reveal(Seq::filter_map);
    if rest.len() == 0 {
        assert(first + rest =~= first);
        assert(mutable_refs(first) + mutable_refs(rest) =~= mutable_refs(first));
    } else {
        law_mutable_inputs_are_in_order(first, rest.drop_last());
        assert((first + rest).drop_last() =~= first + rest.drop_last());
        assert((first + rest).last() == rest.last());
        assert(mutable_refs(first + rest) =~= mutable_refs(first) + mutable_refs(rest));
        if rest.len() == 1 {
            assert(rest.drop_last() =~= Seq::<InputObject>::empty());
            assert(mutable_refs(rest.drop_last()).len() == 0);
        }
    }
}

proof fn lemma_mutable_refs_contain(inputs: Seq<InputObject>, r: ObjectRef)
    ensures
        mutable_refs(inputs).contains(r) <==> exists|i: int|
            0 <= i < inputs.len() && may_change_as(#[trigger] inputs[i], r),
    decreases inputs.len(),
{
    reveal(Seq::filter_map);
    if inputs.len() > 0 {
        let rest = inputs.drop_last();
        let n = inputs.len() - 1;
        let all = mutable_refs(inputs);
        let fewer = mutable_refs(rest);
        lemma_mutable_refs_contain(rest, r);
        let last = inputs[n];
        assert(may_change_as(last, r) <==> last.mutable_ref() == Some(r));
        if all.contains(r) {
            let k = choose|k: int| 0 <= k < all.len() && all[k] == r;
            if k < fewer.len() {
                assert(fewer[k] == r);
                assert(fewer.contains(r));
                let i = choose|i: int| 0 <= i < rest.len() && may_change_as(#[trigger] rest[i], r);
                assert(may_change_as(inputs[i], r));
            } else {
                assert(may_change_as(inputs[n], r));
            }
        }
        if exists|i: int| 0 <= i < inputs.len() && may_change_as(#[trigger] inputs[i], r) {
            let i = choose|i: int| 0 <= i < inputs.len() && may_change_as(#[trigger] inputs[i], r);
            if i < n {
                assert(may_change_as(rest[i], r));
                let k = choose|k: int| 0 <= k < fewer.len() && fewer[k] == r;
                assert(all[k] == r);
            } else {
                assert(all[fewer.len() as int] == r);
            }
        }
    }
}

/// The highest version of the inputs is that of a Move object among them, and of none is higher. It
/// is zero where there is no Move object.
pub proof fn law_highest_version_is_that_of_an_input(inputs: Seq<InputObject>)
    ensures
        forall|i: int|
            #![trigger inputs[i]]
            0 <= i < inputs.len() ==> (inputs[i].object@.data matches DataView::Move(m)
                ==> m.version.value <= highest_version(inputs)),
        highest_version(inputs) == 0 || exists|i: int|
            #![trigger inputs[i]]
            0 <= i < inputs.len() && inputs[i].object@.data is Move
                && inputs[i].object@.data->Move_0.version.value == highest_version(inputs),
    decreases inputs.len(),
{
    if inputs.len() > 0 {
        let rest = inputs.drop_last();
        let n = inputs.len() - 1;
        law_highest_version_is_that_of_an_input(rest);
        assert forall|i: int|
            #![trigger inputs[i]]
            0 <= i < inputs.len() implies (inputs[i].object@.data matches DataView::Move(m)
            ==> m.version.value <= highest_version(inputs)) by {
            if i < n {
                assert(rest[i] == inputs[i]);
            }
        }
        if highest_version(inputs) != 0 {
            if highest_version(rest) < inputs[n].move_version() {
                assert(inputs[n].object@.data is Move);
            } else {
                let i = choose|i: int|
                    #![trigger rest[i]]
                    0 <= i < rest.len() && rest[i].object@.data is Move
                        && rest[i].object@.data->Move_0.version.value == highest_version(rest);
                assert(inputs[i] == rest[i]);
            }
        }
    }
}

/// A new store holds the inputs, the version, the digest and the settings that it is given, and
/// nothing is written, deleted, emitted or paid yet.
pub proof fn law_new_store_has_done_nothing(
    inputs: InputObjects,
    lamport_timestamp: SequenceNumber,
    tx_digest: TransactionDigest,
    config: ProtocolConfig,
    id: ObjectID,
)
    ensures
        ({
            let s = fresh(inputs, lamport_timestamp, tx_digest, config);
            &&& !s.written.contains_key(id)
            &&& !s.deleted.contains_key(id)
            &&& s.events == Seq::<Event>::empty()
            &&& s.gas_charged is None
            &&& s.tx_digest == tx_digest
            &&& s.lamport_timestamp == lamport_timestamp
            &&& s.storage_rebate_rate == config.storage_rebate_rate
            &&& s.protocol_config == config
            &&& s.input_objects == object_map(inputs.objects@)
            &&& s.mutable_inputs == mutable_refs(inputs.objects@)
        }),
{
}

/// The first settings, the fixed ids, versions and amounts, the packages of the system, and the
/// digests of what is gone.
pub proof fn law_fixed_values(id: ObjectID)
    ensures
        ProtocolConfig::min_version().version == 1,
        ProtocolConfig::min_version().storage_rebate_rate == 9900,
        ProtocolConfig::min_version().gas_model_version == 1,
        ProtocolConfig::min_version().move_binary_format_version == 6,
        MIN_VERSION == 0,
        MAX_VERSION == 0x7fff_ffff_ffff_ffff,
        NO_OBJECT == (0u128, 0u128),
        SUI_SYSTEM_STATE_OBJECT_ID == (0u128, 5u128),
        PAIR_LENGTH == 40,
        BASIS_POINTS == 10000,
        PUBLISH_GAS_UNITS == 10000,
        spec_is_system_package(id) <==> id == (0u128, 1u128) || id == (0u128, 2u128) || id == (
            0u128,
            3u128,
        ),
        ObjectDigest::spec_deleted().high == 99 * 0x0101_0101_0101_0101_0101_0101_0101_0101,
        ObjectDigest::spec_deleted().low == 99 * 0x0101_0101_0101_0101_0101_0101_0101_0101,
        ObjectDigest::spec_wrapped().high == 88 * 0x0101_0101_0101_0101_0101_0101_0101_0101,
        ObjectDigest::spec_wrapped().low == 88 * 0x0101_0101_0101_0101_0101_0101_0101_0101,
{
}

proof fn lemma_be_value_distinct(a: Seq<u8>, b: Seq<u8>)
    requires
        a.len() == b.len(),
        be_value(a) == be_value(b),
    ensures
        a == b,
    decreases a.len(),
{
    if a.len() > 0 {
        lemma_be_value_distinct(a.drop_last(), b.drop_last());
        assert(a =~= a.drop_last().push(a.last()));
        assert(b =~= b.drop_last().push(b.last()));
    } else {
        assert(a =~= b);
    }
}

/// Two Move objects have the same id just if their first 32 bytes are the same.
pub proof fn law_id_is_in_the_first_bytes(a: Seq<u8>, b: Seq<u8>)
    requires
        a.len() >= 32,
        b.len() >= 32,
    ensures
        id_of_bytes(a) == id_of_bytes(b) <==> a.subrange(0, 32) == b.subrange(0, 32),
{
    if id_of_bytes(a) == id_of_bytes(b) {
        crate::bytes::lemma_be_fits(a.subrange(0, 16));
        crate::bytes::lemma_be_fits(a.subrange(16, 32));
        crate::bytes::lemma_be_fits(b.subrange(0, 16));
        crate::bytes::lemma_be_fits(b.subrange(16, 32));
        lemma_be_value_distinct(a.subrange(0, 16), b.subrange(0, 16));
        lemma_be_value_distinct(a.subrange(16, 32), b.subrange(16, 32));
        assert(a.subrange(0, 32) =~= a.subrange(0, 16) + a.subrange(16, 32));
        assert(b.subrange(0, 32) =~= b.subrange(0, 16) + b.subrange(16, 32));
    }
    if a.subrange(0, 32) == b.subrange(0, 32) {
        assert(a.subrange(0, 16) =~= a.subrange(0, 32).subrange(0, 16));
        assert(b.subrange(0, 16) =~= b.subrange(0, 32).subrange(0, 16));
        assert(a.subrange(16, 32) =~= a.subrange(0, 32).subrange(16, 32));
        assert(b.subrange(16, 32) =~= b.subrange(0, 32).subrange(16, 32));
    }
}

/// An object is seen as it is: its owner, its record, its rebate, and its value, with the contents of
/// a Move object as a sequence. Its id and its version are those of its value.
pub proof fn law_object_is_seen_as_it_is(object: Object)
    ensures
        object@.owner == object.owner,
        object@.previous_transaction == object.previous_transaction,
        object@.storage_rebate == object.storage_rebate,
        object@.id() == id_in(object@.data),
        object@.version() == version_in(object@.data),
        match object.data {
            Data::Move(m) => {
                &&& object@.data is Move
                &&& object@.data->Move_0.type_ == *m.type_
                &&& object@.data->Move_0.has_public_transfer == m.has_public_transfer
                &&& object@.data->Move_0.version == m.version
                &&& object@.data->Move_0.contents == m.contents@
            },
            Data::Package(p) => object@.data == DataView::Package(p),
        },
{
}

/// What a lookup found is seen as it is, and so is the error that something ended with.
pub proof fn law_results_are_seen_as_they_are<T>(
    lookup: SuiResult<Option<Object>>,
    execution: Result<T, ExecutionError>,
)
    ensures
        match lookup {
            Ok(Some(object)) => found(lookup) == Ok::<Option<ObjectView>, SuiError>(Some(object@)),
            Ok(None) => found(lookup) == Ok::<Option<ObjectView>, SuiError>(None),
            Err(error) => found(lookup) == Err::<Option<ObjectView>, SuiError>(error),
        },
        match execution {
            Ok(_) => error_of(execution) is None,
            Err(error) => error_of(execution) == Some(error),
        },
{
}

/// Objects and changes of a map are seen under their ids, each as it is.
pub proof fn law_maps_are_seen_as_they_are(
    objects: Map<ObjectID, Object>,
    changes: Map<ObjectID, ObjectChange>,
    id: ObjectID,
)
    ensures
        object_views(objects).contains_key(id) <==> objects.contains_key(id),
        objects.contains_key(id) ==> object_views(objects)[id] == objects[id]@,
        change_views(changes).contains_key(id) <==> changes.contains_key(id),
        changes.contains_key(id) ==> match changes[id] {
            ObjectChange::Write(object, kind) => change_views(changes)[id]
                == ObjectChangeView::Write(object@, kind),
            ObjectChange::Delete(version, kind) => change_views(changes)[id]
                == ObjectChangeView::Delete(version, kind),
        },
{
    assert(object_views(objects).dom() =~= objects.dom());
    assert(change_views(changes).dom() =~= changes.dom());
    if objects.contains_key(id) {
        assert(objects.dom().contains(id));
    }
    if changes.contains_key(id) {
        assert(changes.dom().contains(id));
    }
}

/// An owner is a single address just if it is an account or an object, and then that address.
pub proof fn law_single_owner(owner: Owner)
    ensures
        match owner {
            Owner::AddressOwner(address) => owner.single() == Some(address),
            Owner::ObjectOwner(address) => owner.single() == Some(address),
            Owner::Shared { .. } => owner.single() is None,
            Owner::Immutable => owner.single() is None,
        },
{
}

/// An object counts for its contents and its type, with 89 bytes more, or for the names and the code
/// of its modules, with 88 bytes more. Neither its owner nor its rebate counts.
pub proof fn law_size_of_an_object(object: ObjectView)
    ensures
        match object.data {
            DataView::Move(m) => object.size() == m.contents.len() + object_type_size(m.type_) + 89,
            DataView::Package(p) => object.size() == modules_size(
                p.modules@,
                p.modules@.len(),
            ) + 88,
        },
{
}

/// One more module counts for its name and its code.
pub proof fn law_size_of_modules(modules: Seq<SerializedModule>, n: nat)
    requires
        n < modules.len(),
    ensures
        modules_size(modules, 0) == 0,
        modules_size(modules, n + 1) == modules_size(modules, n) + modules[n as int].name@.len()
            + modules[n as int].bytes@.len(),
{
}

/// A type counts for one byte, and a vector or a struct for what it is made of besides: a struct for
/// its address, its two names and its type arguments, and for the length of each list, seven bits to
/// a byte.
pub proof fn law_size_of_a_type(t: MoveObjectType, tag: TypeTag, n: nat)
    ensures
        match t {
            MoveObjectType::GasCoin => object_type_size(t) == 1,
            MoveObjectType::StakedSui => object_type_size(t) == 1,
            MoveObjectType::Coin(currency) => object_type_size(t) == type_size(currency) + 1,
            MoveObjectType::Other(s) => object_type_size(t) == struct_size(s) + 1,
        },
        match tag {
            TypeTag::Vector(inner) => type_size(tag) == type_size(*inner) + 1,
            TypeTag::Struct(s) => {
                &&& type_size(tag) == struct_size(*s) + 1
                &&& struct_size(*s) == 32 + s.module@.len() + s.name@.len() + uleb_size(
                    s.module@.len(),
                ) + uleb_size(s.name@.len()) + uleb_size(s.type_params@.len()) + params_size(
                    *s,
                    s.type_params@.len(),
                )
                &&& params_size(*s, 0) == 0
                &&& n < s.type_params@.len() ==> params_size(*s, n + 1) == params_size(*s, n)
                    + type_size(s.type_params@[n as int])
            },
            _ => type_size(tag) == 1,
        },
        n < 0x80 ==> uleb_size(n) == 1,
        0x80 <= n < 0x4000 ==> uleb_size(n) == 2,
        uleb_size(128 * (n + 1)) == uleb_size(n + 1) + 1,
{
    reveal_with_fuel(uleb_size, 3);
    assert((128 * (n + 1)) / 128 == n + 1);
}

/// Two struct types are the same just if they have the same address, the same names and the same
/// type arguments, one by one. A struct is no other kind of type.
pub proof fn law_same_types_agree_in_everything(a: StructTag, b: StructTag, x: TypeTag, y: TypeTag)
    ensures
        same_struct(a, b) <==> a.address == b.address && a.module@ == b.module@ && a.name@
            == b.name@ && a.type_params@.len() == b.type_params@.len() && forall|i: int|
            #![trigger a.type_params@[i]]
            0 <= i < a.type_params@.len() ==> same_type(a.type_params@[i], b.type_params@[i]),
        match x {
            TypeTag::Struct(s) => same_type(x, y) <==> y is Struct && same_struct(
                *s,
                *y->Struct_0,
            ),
            TypeTag::Vector(inner) => same_type(x, y) <==> y is Vector && same_type(
                *inner,
                *y->Vector_0,
            ),
            _ => same_type(x, y) <==> x == y,
        },
{
}

/// Whether a struct type has this name at this short address, and so many type arguments.
pub open spec fn is_called(
    s: StructTag,
    address: u128,
    module: Seq<u8>,
    name: Seq<u8>,
    params: nat,
) -> bool {
    s.address == (0u128, address) && s.module@ == module && s.name@ == name && s.type_params@.len()
        == params
}

/// An object of one of the short types is of the struct type that the short type stands for:
/// `0x2::coin::Coin<0x2::sui::SUI>`, `0x3::staking_pool::StakedSui`, or `0x2::coin::Coin` of its
/// currency. Any other object is of its own struct type. None is of any other.
pub proof fn law_short_types_stand_for_structs(t: MoveObjectType, s: StructTag)
    ensures
        ({
            let coin = is_called(
                s,
                2,
                seq![99u8, 111u8, 105u8, 110u8],
                seq![67u8, 111u8, 105u8, 110u8],
                1,
            );
            object_is_of_type(t, s) <==> match t {
                MoveObjectType::Other(own) => same_struct(own, s),
                MoveObjectType::GasCoin => coin && s.type_params@[0] is Struct && is_called(
                    *s.type_params@[0]->Struct_0,
                    2,
                    seq![115u8, 117u8, 105u8],
                    seq![83u8, 85u8, 73u8],
                    0,
                ),
                MoveObjectType::StakedSui => is_called(
                    s,
                    3,
                    seq![
                        115u8, 116u8, 97u8, 107u8, 105u8, 110u8, 103u8, 95u8, 112u8, 111u8, 111u8,
                        108u8,
                    ],
                    seq![83u8, 116u8, 97u8, 107u8, 101u8, 100u8, 83u8, 117u8, 105u8],
                    0,
                ),
                MoveObjectType::Coin(currency) => coin && same_type(currency, s.type_params@[0]),
            }
        }),
{
}

} // verus!

use crate::base_types::{
    ObjectDigest, ObjectID, ObjectRef, SequenceNumber, SuiAddress, TransactionDigest,
};
use crate::bytes::{be_u128, be_value, copy_bytes, same_bytes};
use crate::coin::{coin_balance, is_coin, Coin};
use crate::error::{SuiError, SuiResult};
use crate::move_types::{
    object_is_of_type, object_type_size, Identifier, MoveObjectType, StructTag,
};
use std::sync::Arc;
use vstd::prelude::*;

verus! {

/// The number of bytes that the owner, the digest of the last transaction and the storage rebate
/// count for when an object is metered.
pub const METADATA_SIZE: usize = 80;

/// Who may use an object.
#[derive(Clone, Copy, Debug, PartialEq, Eq, Structural)]
pub enum Owner {
    /// One account may use it.
    AddressOwner(SuiAddress),
    /// It belongs to another object, which is at this address.
    ObjectOwner(SuiAddress),
    /// Everyone may use it, through consensus.
    Shared { initial_shared_version: SequenceNumber },
    /// Everyone may read it and no one may change it.
    Immutable,
}

/// An object whose value is a Move struct. The first 32 bytes of its contents are its id.
#[derive(Debug, PartialEq, Eq)]
pub struct MoveObject {
    pub type_: Arc<MoveObjectType>,
    pub has_public_transfer: bool,
    pub version: SequenceNumber,
    pub contents: Vec<u8>,
}

/// One module of a package, in the binary format.
#[derive(Debug, PartialEq, Eq)]
pub struct SerializedModule {
    pub name: Identifier,
    pub bytes: Vec<u8>,
}

/// An object whose value is a list of modules.
#[derive(Debug, PartialEq, Eq)]
pub struct MovePackage {
    pub id: ObjectID,
    pub version: SequenceNumber,
    pub modules: Arc<Vec<SerializedModule>>,
}

/// The value of an object.
#[derive(Debug, PartialEq, Eq)]
pub enum Data {
    Move(MoveObject),
    Package(MovePackage),
}

/// An object of the ledger.
#[derive(Debug, PartialEq, Eq)]
pub struct Object {
    pub data: Data,
    pub owner: Owner,
    /// The transaction that last wrote the object.
    pub previous_transaction: TransactionDigest,
    /// What is given back when the object is deleted or changed.
    pub storage_rebate: u64,
}

/// What a Move object is, with its contents as a sequence.
#[verifier::ext_equal]
pub struct MoveObjectView {
    pub type_: MoveObjectType,
    pub has_public_transfer: bool,
    pub version: SequenceNumber,
    pub contents: Seq<u8>,
}

/// What the value of an object is.
#[verifier::ext_equal]
pub enum DataView {
    Move(MoveObjectView),
    Package(MovePackage),
}

/// What an object is.
#[verifier::ext_equal]
pub struct ObjectView {
    pub data: DataView,
    pub owner: Owner,
    pub previous_transaction: TransactionDigest,
    pub storage_rebate: u64,
}

impl View for MoveObject {
    type V = MoveObjectView;

    open spec fn view(&self) -> MoveObjectView {
        MoveObjectView {
            type_: *self.type_,
            has_public_transfer: self.has_public_transfer,
            version: self.version,
            contents: self.contents@,
        }
    }
}

impl View for Data {
    type V = DataView;

    open spec fn view(&self) -> DataView {
        match *self {
            Data::Move(m) => DataView::Move(m@),
            Data::Package(p) => DataView::Package(p),
        }
    }
}

impl View for Object {
    type V = ObjectView;

    open spec fn view(&self) -> ObjectView {
        ObjectView {
            data: self.data@,
            owner: self.owner,
            previous_transaction: self.previous_transaction,
            storage_rebate: self.storage_rebate,
        }
    }
}

/// The id that 32 bytes stand for.
pub open spec fn id_of_bytes(s: Seq<u8>) -> ObjectID {
    (be_value(s.subrange(0, 16)) as u128, be_value(s.subrange(16, 32)) as u128)
}

/// The bytes of the first module with the name `name`, if there is one.
pub open spec fn module_bytes(modules: Seq<SerializedModule>, name: Seq<u8>) -> Option<Seq<u8>>
    decreases modules.len(),
{
    if modules.len() == 0 {
        None
    } else if modules[0].name@ == name {
        Some(modules[0].bytes@)
    } else {
        module_bytes(modules.drop_first(), name)
    }
}

/// Whether `result` is the module with the name `name`, in the form that `deserialize` gives it. It
/// is an error if there is no such module, or `deserialize` makes nothing of it.
pub open spec fn deserialized<M, F: Fn(&Vec<u8>, u32) -> Option<M>>(
    deserialize: F,
    package: MovePackage,
    name: Seq<u8>,
    max_binary_format_version: u32,
    result: SuiResult<M>,
) -> bool {
    match module_bytes(package.modules@, name) {
        None => result == Err::<M, SuiError>(SuiError::ModuleNotFound),
        Some(bytes) => {
            &&& result matches Err(error) ==> error == SuiError::ModuleDeserializationFailure
            &&& exists|code: &Vec<u8>|
                code@ == bytes && call_ensures(
                    deserialize,
                    (code, max_binary_format_version),
                    match result {
                        Ok(module) => Some(module),
                        Err(_) => None,
                    },
                )
        },
    }
}

/// The number of bytes of the names and the code of the first `n` modules.
pub open spec fn modules_size(modules: Seq<SerializedModule>, n: nat) -> nat
    decreases n,
{
    if n == 0 {
        0
    } else {
        modules_size(modules, (n - 1) as nat) + modules[n - 1].name@.len()
            + modules[n - 1].bytes@.len()
    }
}

impl Owner {
    /// The address of the single account or object that the owner is, if it is one.
    pub open spec fn single(self) -> Option<SuiAddress> {
        match self {
            Owner::AddressOwner(address) => Some(address),
            Owner::ObjectOwner(address) => Some(address),
            _ => None,
        }
    }
}

impl MoveObjectView {
    /// The id of the object: the first 32 bytes of its contents.
    pub open spec fn id(self) -> ObjectID {
        id_of_bytes(self.contents)
    }

    /// Whether the object is a SUI coin whose contents are those of a coin.
    pub open spec fn is_gas_coin(self) -> bool {
        self.type_ is GasCoin && is_coin(self.contents)
    }
}

impl ObjectView {
    pub open spec fn id(self) -> ObjectID {
        match self.data {
            DataView::Move(m) => m.id(),
            DataView::Package(p) => p.id,
        }
    }

    pub open spec fn version(self) -> SequenceNumber {
        match self.data {
            DataView::Move(m) => m.version,
            DataView::Package(p) => p.version,
        }
    }

    /// The number of bytes that the object counts for when storage is paid for.
    pub open spec fn size(self) -> nat {
        METADATA_SIZE as nat + match self.data {
            DataView::Move(m) => m.contents.len() + object_type_size(m.type_) + 9,
            DataView::Package(p) => modules_size(p.modules@, p.modules@.len()) + 8,
        }
    }

    /// Whether the object is complete: a Move object holds at least its id, and its size is a
    /// number that the machine has.
    pub open spec fn wf(self) -> bool {
        self.has_id() && self.size() <= usize::MAX
    }

    /// Whether the object holds its id.
    pub open spec fn has_id(self) -> bool {
        self.data matches DataView::Move(m) ==> m.contents.len() >= 32
    }

    pub open spec fn is_immutable(self) -> bool {
        self.owner is Immutable
    }

    /// Whether the object is a SUI coin.
    pub open spec fn is_gas_coin(self) -> bool {
        self.data matches DataView::Move(m) && m.is_gas_coin()
    }

    /// The balance of a SUI coin.
    pub open spec fn gas_balance(self) -> nat {
        coin_balance(self.data->Move_0.contents)
    }

    /// The same coin with another balance.
    pub open spec fn with_gas_balance(self, balance: u64) -> ObjectView {
        ObjectView {
            data: DataView::Move(
                MoveObjectView {
                    contents: crate::coin::coin_with_balance(
                        self.data->Move_0.contents,
                        balance,
                    ),
                    ..self.data->Move_0
                },
            ),
            ..self
        }
    }
}

impl Owner {
    /// The address of the single account or object that the owner is, if it is one.
    pub fn get_owner_address(&self) -> (address: Option<SuiAddress>)
        ensures
            address == self.single(),
    {
        match *self {
            Owner::AddressOwner(address) => Some(address),
            Owner::ObjectOwner(address) => Some(address),
            Owner::Shared { .. } => None,
            Owner::Immutable => None,
        }
    }
}

impl Clone for MoveObject {
    fn clone(&self) -> (copy: Self)
        ensures
            copy@ == self@,
    {
        MoveObject {
            type_: self.type_.clone(),
            has_public_transfer: self.has_public_transfer,
            version: self.version,
            contents: copy_bytes(&self.contents),
        }
    }
}

impl Clone for MovePackage {
    fn clone(&self) -> (copy: Self)
        ensures
            copy == *self,
    {
        MovePackage { id: self.id, version: self.version, modules: self.modules.clone() }
    }
}

impl Clone for Data {
    fn clone(&self) -> (copy: Self)
        ensures
            copy@ == self@,
    {
        match self {
            Data::Move(m) => Data::Move(m.clone()),
            Data::Package(p) => Data::Package(p.clone()),
        }
    }
}

impl Clone for Object {
    fn clone(&self) -> (copy: Self)
        ensures
            copy@ == self@,
    {
        Object {
            data: self.data.clone(),
            owner: self.owner,
            previous_transaction: self.previous_transaction,
            storage_rebate: self.storage_rebate,
        }
    }
}

impl MoveObject {
    /// The id of the object: the first 32 bytes of its contents.
    pub fn id(&self) -> (id: ObjectID)
        requires
            self@.contents.len() >= 32,
        ensures
            id == self@.id(),
    {
        (be_u128(&self.contents, 0), be_u128(&self.contents, 16))
    }

    /// Whether the object is of the struct type `s`.
    pub fn is_type(&self, s: &StructTag) -> (same: bool)
        ensures
            same == object_is_of_type(self@.type_, *s),
    {
        self.type_.is(s)
    }
}

impl MovePackage {
    /// The bytes of the module with the name `name`.
    pub fn module(&self, name: &Identifier) -> (bytes: Option<&Vec<u8>>)
        ensures
            bytes is Some <==> module_bytes(self.modules@, name@) is Some,
            bytes matches Some(b) ==> module_bytes(self.modules@, name@) == Some(b@),
    {
        let mut i: usize = 0;
        assert(self.modules@.skip(0) =~= self.modules@);
        while i < self.modules.len()
            invariant
                i <= self.modules@.len(),
                module_bytes(self.modules@, name@) == module_bytes(
                    self.modules@.skip(i as int),
                    name@,
                ),
            decreases self.modules@.len() - i,
        {
            assert(self.modules@.skip(i as int).drop_first() =~= self.modules@.skip(i + 1));
            if same_bytes(&self.modules[i].name, name) {
                return Some(&self.modules[i].bytes);
            }
            i = i + 1;
        }
        None
    }

    /// The module with the name `module`, in the form that `deserialize` gives it.
    pub fn deserialize_module<M, F: Fn(&Vec<u8>, u32) -> Option<M>>(
        &self,
        module: &Identifier,
        max_binary_format_version: u32,
        deserialize: &F,
    ) -> (result: SuiResult<M>)
        requires
            forall|bytes: &Vec<u8>|
                call_requires(*deserialize, (bytes, max_binary_format_version)),
        ensures
            deserialized(*deserialize, *self, module@, max_binary_format_version, result),
    {
        match self.module(module) {
            None => Err(SuiError::ModuleNotFound),
            Some(bytes) => match deserialize(bytes, max_binary_format_version) {
                Some(compiled) => Ok(compiled),
                None => Err(SuiError::ModuleDeserializationFailure),
            },
        }
    }

    /// The number of bytes of the names and the code of the modules.
    fn modules_size(&self) -> (size: usize)
        requires
            modules_size(self.modules@, self.modules@.len()) <= usize::MAX,
        ensures
            size == modules_size(self.modules@, self.modules@.len()),
    {
        let mut size: usize = 0;
        let mut i: usize = 0;
        while i < self.modules.len()
            invariant
                i <= self.modules@.len(),
                size == modules_size(self.modules@, i as nat),
                modules_size(self.modules@, self.modules@.len()) <= usize::MAX,
            decreases self.modules@.len() - i,
        {
            proof {
                lemma_modules_grow(self.modules@, (i + 1) as nat, self.modules@.len());
            }
            size = size + self.modules[i].name.len() + self.modules[i].bytes.len();
            i = i + 1;
        }
        size
    }
}

proof fn lemma_modules_grow(modules: Seq<SerializedModule>, a: nat, b: nat)
    requires
        a <= b,
    ensures
        modules_size(modules, a) <= modules_size(modules, b),
    decreases b,
{
    if a < b {
        lemma_modules_grow(modules, a, (b - 1) as nat);
    }
}

impl Object {
    pub fn id(&self) -> (id: ObjectID)
        requires
            self@.has_id(),
        ensures
            id == self@.id(),
    {
        match &self.data {
            Data::Move(m) => m.id(),
            Data::Package(p) => p.id,
        }
    }

    pub fn version(&self) -> (version: SequenceNumber)
        ensures
            version == self@.version(),
    {
        match &self.data {
            Data::Move(m) => m.version,
            Data::Package(p) => p.version,
        }
    }

    pub fn is_immutable(&self) -> (immutable: bool)
        ensures
            immutable == self@.is_immutable(),
    {
        match self.owner {
            Owner::Immutable => true,
            _ => false,
        }
    }

    /// The address of the single account or object that owns this object, if there is one.
    pub fn get_single_owner(&self) -> (owner: Option<SuiAddress>)
        ensures
            owner == self@.owner.single(),
    {
        self.owner.get_owner_address()
    }

    /// The number of bytes that the object counts for when storage is paid for.
    pub fn object_size_for_gas_metering(&self) -> (size: usize)
        requires
            self@.size() <= usize::MAX,
        ensures
            size == self@.size(),
    {
        match &self.data {
            Data::Move(m) => METADATA_SIZE + (m.contents.len() + (m.type_.serialized_size() + 9)),
            Data::Package(p) => METADATA_SIZE + (p.modules_size() + 8),
        }
    }

    /// The coin that the object is, if it is a SUI coin.
    pub fn as_gas_coin(&self) -> (coin: Option<Coin>)
        ensures
            coin is Some <==> self@.is_gas_coin(),
            coin matches Some(c) ==> c.balance == self@.gas_balance() && c.id@
                == self@.data->Move_0.contents.take(32),
    {
        match &self.data {
            Data::Move(m) => {
                if m.type_.is_gas_coin() {
                    match Coin::from_bcs_bytes(&m.contents) {
                        Ok(coin) => Some(coin),
                        Err(_) => None,
                    }
                } else {
                    None
                }
            },
            Data::Package(_) => None,
        }
    }

    /// Makes `coin` the contents of the object, which must be a SUI coin of the same id.
    pub fn set_gas_coin(&mut self, coin: &Coin)
        requires
            old(self)@.is_gas_coin(),
            coin.id@ == old(self)@.data->Move_0.contents.take(32),
        ensures
            final(self)@ == old(self)@.with_gas_balance(coin.balance),
    {
        match coin.to_bcs_bytes() {
            Ok(bytes) => {
                if let Data::Move(m) = &mut self.data {
                    m.contents = bytes;
                }
            },
            Err(_) => {},
        }
    }

    /// The reference to this version of the object, with the digest that `digest` computes.
    pub fn compute_object_reference<F: Fn(&Object) -> ObjectDigest>(&self, digest: &F) -> (r:
        ObjectRef)
        requires
            self@.has_id(),
            call_requires(*digest, (self,)),
        ensures
            r.0 == self@.id(),
            r.1 == self@.version(),
            call_ensures(*digest, (self,), r.2),
    {
        (self.id(), self.version(), digest(self))
    }
}

/// A SUI coin with another balance is a SUI coin with that balance, and otherwise the same object.
pub proof fn lemma_with_gas_balance(object: ObjectView, balance: u64)
    requires
        object.is_gas_coin(),
    ensures
        object.with_gas_balance(balance).is_gas_coin(),
        object.with_gas_balance(balance).gas_balance() == balance,
        object.with_gas_balance(balance).id() == object.id(),
        object.with_gas_balance(balance).version() == object.version(),
        object.with_gas_balance(balance).size() == object.size(),
        object.wf() ==> object.with_gas_balance(balance).wf(),
{
    let contents = object.data->Move_0.contents;
    let changed = crate::coin::coin_with_balance(contents, balance);
    crate::coin::law_coin_round_trip(contents, balance);
    assert(changed.subrange(0, 16) =~= changed.take(32).subrange(0, 16));
    assert(contents.subrange(0, 16) =~= contents.take(32).subrange(0, 16));
    assert(changed.subrange(16, 32) =~= changed.take(32).subrange(16, 32));
    assert(contents.subrange(16, 32) =~= contents.take(32).subrange(16, 32));
}

} // verus!

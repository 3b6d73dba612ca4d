use vstd::prelude::*;

verus! {

/// A 32-byte account address, held as its two big-endian halves. The order of the pairs is the
/// order of the byte strings.
pub type AccountAddress = (u128, u128);

/// The identifier of an object: the address it lives at.
pub type ObjectID = AccountAddress;

/// A reference to one version of one object: its id, its version and its digest.
pub type ObjectRef = (ObjectID, SequenceNumber, ObjectDigest);

/// The number of an epoch.
pub type EpochId = u64;

/// The address of an account, or of the object that owns another object.
#[derive(Clone, Copy, Debug, PartialEq, Eq, Structural)]
pub struct SuiAddress {
    pub high: u128,
    pub low: u128,
}

/// The version of an object.
#[derive(Clone, Copy, Debug, PartialEq, Eq, Structural)]
pub struct SequenceNumber {
    pub value: u64,
}

/// The digest of an object.
#[derive(Clone, Copy, Debug, PartialEq, Eq, Structural)]
pub struct ObjectDigest {
    pub high: u128,
    pub low: u128,
}

/// The digest of a transaction.
#[derive(Clone, Copy, Debug, PartialEq, Eq, Structural)]
pub struct TransactionDigest {
    pub high: u128,
    pub low: u128,
}

/// The digest of the events of a transaction.
#[derive(Clone, Copy, Debug, PartialEq, Eq, Structural)]
pub struct TransactionEventsDigest {
    pub high: u128,
    pub low: u128,
}

/// The id that stands for "no object".
pub const NO_OBJECT: ObjectID = (0, 0);

/// The id of the system state object, `0x5`.
pub const SUI_SYSTEM_STATE_OBJECT_ID: ObjectID = (0, 5);

/// The version of an object that was just created.
pub const MIN_VERSION: u64 = 0;

/// The highest version that an object can have.
pub const MAX_VERSION: u64 = 0x7fff_ffff_ffff_ffff;

/// Whether `id` is one of the packages that the system itself publishes: the Move standard
/// library, the framework and the system package.
pub open spec fn spec_is_system_package(id: ObjectID) -> bool {
    id.0 == 0 && 1 <= id.1 <= 3
}

/// Whether `id` is one of the packages that the system itself publishes.
pub fn is_system_package(id: ObjectID) -> (system: bool)
    ensures
        system == spec_is_system_package(id),
{
    id.0 == 0 && 1 <= id.1 && id.1 <= 3
}

impl SuiAddress {
    /// The id of the object at this address.
    pub open spec fn object_id(self) -> ObjectID {
        (self.high, self.low)
    }

    /// The id of the object at this address.
    pub fn to_object_id(&self) -> (id: ObjectID)
        ensures
            id == self.object_id(),
    {
        (self.high, self.low)
    }
}

impl SequenceNumber {
    /// The version of an object that was just created.
    pub fn new() -> (version: SequenceNumber)
        ensures
            version.value == MIN_VERSION,
    {
        SequenceNumber { value: MIN_VERSION }
    }

    /// Moves on to the next version.
    pub fn increment(&mut self)
        requires
            old(self).value < u64::MAX,
        ensures
            final(self).value == old(self).value + 1,
    {
        self.value = self.value + 1;
    }

    /// Moves on to `next`, which must be a later version.
    pub fn increment_to(&mut self, next: SequenceNumber)
        requires
            old(self).value < next.value,
        ensures
            *final(self) == next,
    {
        self.value = next.value;
    }
}

impl ObjectDigest {
    /// The digest that stands for an object that was deleted: every byte is 99.
    pub open spec fn spec_deleted() -> ObjectDigest {
        ObjectDigest {
            high: 0x6363_6363_6363_6363_6363_6363_6363_6363,
            low: 0x6363_6363_6363_6363_6363_6363_6363_6363,
        }
    }

    /// The digest that stands for an object that was wrapped into another: every byte is 88.
    pub open spec fn spec_wrapped() -> ObjectDigest {
        ObjectDigest {
            high: 0x5858_5858_5858_5858_5858_5858_5858_5858,
            low: 0x5858_5858_5858_5858_5858_5858_5858_5858,
        }
    }

    /// The digest that stands for an object that was deleted.
    pub fn deleted() -> (digest: ObjectDigest)
        ensures
            digest == ObjectDigest::spec_deleted(),
    {
        ObjectDigest {
            high: 0x6363_6363_6363_6363_6363_6363_6363_6363,
            low: 0x6363_6363_6363_6363_6363_6363_6363_6363,
        }
    }

    /// The digest that stands for an object that was wrapped into another.
    pub fn wrapped() -> (digest: ObjectDigest)
        ensures
            digest == ObjectDigest::spec_wrapped(),
    {
        ObjectDigest {
            high: 0x5858_5858_5858_5858_5858_5858_5858_5858,
            low: 0x5858_5858_5858_5858_5858_5858_5858_5858,
        }
    }
}

impl TransactionDigest {
    /// The digest of the genesis transaction: every byte is 0.
    pub fn genesis() -> (digest: TransactionDigest)
        ensures
            digest == (TransactionDigest { high: 0, low: 0 }),
    {
        TransactionDigest { high: 0, low: 0 }
    }
}

} // verus!

use crate::base_types::{
    EpochId, ObjectID, ObjectRef, SequenceNumber, TransactionDigest, TransactionEventsDigest,
};
use crate::error::ExecutionError;
use crate::gas::GasCostSummary;
use crate::object::Owner;
use vstd::prelude::*;

verus! {

pub const APPROX_SIZE_OF_OBJECT_REF: usize = 80;

pub const APPROX_SIZE_OF_EXECUTION_STATUS: usize = 120;

pub const APPROX_SIZE_OF_EPOCH_ID: usize = 10;

pub const APPROX_SIZE_OF_GAS_COST_SUMMARY: usize = 40;

pub const APPROX_SIZE_OF_OPT_TX_EVENTS_DIGEST: usize = 40;

pub const APPROX_SIZE_OF_TX_DIGEST: usize = 40;

pub const APPROX_SIZE_OF_OWNER: usize = 48;

/// What is added to an approximate size to be on the safe side.
pub const SIZE_MARGIN: usize = 1000;

/// How the execution of a transaction ended.
#[derive(Clone, Copy, Debug, PartialEq, Eq, Structural)]
pub enum ExecutionStatus {
    Success,
    Failure(ExecutionError),
}

/// What a transaction did to the ledger.
#[derive(Debug, PartialEq, Eq)]
pub struct TransactionEffects {
    /// The version of the protocol that the effects are laid out for.
    pub protocol_version: u64,
    pub status: ExecutionStatus,
    pub executed_epoch: EpochId,
    pub gas_used: GasCostSummary,
    /// The version of every object that was changed or deleted, before the transaction.
    pub modified_at_versions: Vec<(ObjectID, SequenceNumber)>,
    /// The shared objects that the transaction used.
    pub shared_objects: Vec<ObjectRef>,
    pub transaction_digest: TransactionDigest,
    pub created: Vec<(ObjectRef, Owner)>,
    pub mutated: Vec<(ObjectRef, Owner)>,
    pub unwrapped: Vec<(ObjectRef, Owner)>,
    pub deleted: Vec<ObjectRef>,
    pub unwrapped_then_deleted: Vec<ObjectRef>,
    pub wrapped: Vec<ObjectRef>,
    /// The gas coin after the transaction.
    pub gas_object: (ObjectRef, Owner),
    /// The digest of the events, if there are any.
    pub events_digest: Option<TransactionEventsDigest>,
    /// The transactions that this one depends on.
    pub dependencies: Vec<TransactionDigest>,
}

/// An upper bound on the size of the effects of a transaction with these numbers of written
/// objects, of inputs that may be changed, of deleted objects, and of dependencies.
pub open spec fn effects_size(
    num_writes: nat,
    num_mutables: nat,
    num_deletes: nat,
    num_deps: nat,
) -> nat {
    (APPROX_SIZE_OF_EXECUTION_STATUS + APPROX_SIZE_OF_EPOCH_ID + APPROX_SIZE_OF_GAS_COST_SUMMARY
        + APPROX_SIZE_OF_OPT_TX_EVENTS_DIGEST + SIZE_MARGIN + (APPROX_SIZE_OF_OWNER
        + APPROX_SIZE_OF_OBJECT_REF) * num_writes + APPROX_SIZE_OF_OBJECT_REF * num_mutables
        + APPROX_SIZE_OF_OBJECT_REF * num_deletes + SIZE_MARGIN + APPROX_SIZE_OF_TX_DIGEST
        * num_deps) as nat
}

impl TransactionEffects {
    /// An upper bound on the size of the effects of a transaction.
    pub fn estimate_effects_size_upperbound(
        num_writes: usize,
        num_mutables: usize,
        num_deletes: usize,
        num_deps: usize,
    ) -> (size: usize)
        requires
            effects_size(
                num_writes as nat,
                num_mutables as nat,
                num_deletes as nat,
                num_deps as nat,
            ) <= usize::MAX,
        ensures
            size == effects_size(
                num_writes as nat,
                num_mutables as nat,
                num_deletes as nat,
                num_deps as nat,
            ),
    {
        let fixed_sizes: usize = APPROX_SIZE_OF_EXECUTION_STATUS + APPROX_SIZE_OF_EPOCH_ID
            + APPROX_SIZE_OF_GAS_COST_SUMMARY + APPROX_SIZE_OF_OPT_TX_EVENTS_DIGEST;
        let change_entry_size: usize = SIZE_MARGIN + (APPROX_SIZE_OF_OWNER
            + APPROX_SIZE_OF_OBJECT_REF) * num_writes + APPROX_SIZE_OF_OBJECT_REF * num_mutables
            + APPROX_SIZE_OF_OBJECT_REF * num_deletes;
        let deps_size: usize = SIZE_MARGIN + APPROX_SIZE_OF_TX_DIGEST * num_deps;
        fixed_sizes + change_entry_size + deps_size
    }
}

} // verus!

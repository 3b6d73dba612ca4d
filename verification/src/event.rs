use crate::base_types::{ObjectID, SuiAddress};
use crate::move_types::{Identifier, StructTag};
use vstd::prelude::*;

verus! {

/// An event that a module emitted.
#[derive(Debug, PartialEq, Eq)]
pub struct Event {
    pub package_id: ObjectID,
    pub transaction_module: Identifier,
    pub sender: SuiAddress,
    pub type_: StructTag,
    pub contents: Vec<u8>,
}

/// The events of a transaction, in the order in which they were emitted.
#[derive(Debug, PartialEq, Eq)]
pub struct TransactionEvents {
    pub data: Vec<Event>,
}

} // verus!

use crate::base_types::{ObjectID, SUI_SYSTEM_STATE_OBJECT_ID};
use crate::codec::{decode_pair, is_pair, pair_id, pair_number};
use crate::error::{SuiError, SuiResult};
use crate::object::{Data, DataView, ObjectView};
use crate::storage::ObjectStore;
use vstd::prelude::*;

verus! {

/// The system state object: the id under which its fields are found, and the version of their
/// layout.
#[derive(Debug, PartialEq, Eq)]
pub struct SuiSystemState {
    pub id: [u8; 32],
    pub version: u64,
}

/// Whether `object` is a system state object: a Move object that holds an id and a version.
pub open spec fn is_system_state(object: ObjectView) -> bool {
    object.data matches DataView::Move(m) && is_pair(m.contents)
}

/// Whether `result` is what reading the system state out of `store` gives: the error of the lookup;
/// an error if there is no such object, or it holds something else; and otherwise what it holds.
pub open spec fn system_state_in<S: ObjectStore>(store: S, result: SuiResult<SuiSystemState>) -> bool {
    match store.object_at(SUI_SYSTEM_STATE_OBJECT_ID) {
        Err(error) => result == Err::<SuiSystemState, SuiError>(error),
        Ok(None) => result == Err::<SuiSystemState, SuiError>(SuiError::SuiSystemStateRead),
        Ok(Some(object)) => if is_system_state(object) {
            &&& result is Ok
            &&& result->Ok_0.id@ == pair_id(object.data->Move_0.contents)
            &&& result->Ok_0.version == pair_number(object.data->Move_0.contents)
        } else {
            result == Err::<SuiSystemState, SuiError>(SuiError::SuiSystemStateRead)
        },
    }
}

/// Reads the system state object out of `store`.
pub fn get_sui_system_state<S: ObjectStore>(store: &S) -> (state: SuiResult<SuiSystemState>)
    ensures
        system_state_in(*store, state),
{
    let id: ObjectID = SUI_SYSTEM_STATE_OBJECT_ID;
    match store.get_object(&id) {
        Err(error) => Err(error),
        Ok(None) => Err(SuiError::SuiSystemStateRead),
        Ok(Some(object)) => match &object.data {
            Data::Move(m) => match decode_pair(&m.contents) {
                Ok(pair) => Ok(SuiSystemState { id: pair.0, version: pair.1 }),
                Err(_) => Err(SuiError::SuiSystemStateRead),
            },
            Data::Package(_) => Err(SuiError::SuiSystemStateRead),
        },
    }
}

} // verus!

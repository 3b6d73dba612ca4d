use vstd::prelude::*;

verus! {

/// An internal condition that execution relies on and that did not hold.
#[derive(Clone, Copy, Debug, PartialEq, Eq, Structural)]
pub enum InvariantViolation {
    /// An object that was given to pay for gas is not a gas coin.
    NonGasCoinAsGas,
    /// The contents of a gas coin cannot be read or written as a coin.
    GasCoinEncoding,
    /// The object in the backing store has another version than the one that was changed.
    UnexpectedOldVersion,
    /// A changed object is neither an input nor in the backing store.
    OldObjectMissing,
}

/// Why the execution of a transaction failed.
#[derive(Clone, Copy, Debug, PartialEq, Eq, Structural)]
pub enum ExecutionError {
    InvariantViolation(InvariantViolation),
    InsufficientGas,
    CoinBalanceOverflow,
    MoveAbort { code: u64 },
}

/// Why an operation of the store failed.
#[derive(Clone, Copy, Debug, PartialEq, Eq, Structural)]
pub enum SuiError {
    /// The backing store failed, with a code of its own.
    Storage { code: u64 },
    /// An object that should hold modules holds something else.
    BadObjectType,
    /// A package has no module of the name that was asked for.
    ModuleNotFound,
    /// A module is not in the binary format.
    ModuleDeserializationFailure,
    /// The value of a Move object does not fit its layout.
    ObjectLayout,
    /// The system state object is missing or unreadable.
    SuiSystemStateRead,
    /// The transaction either mints or burns SUI.
    SuiNotConserved { input: u64, output: u64 },
}

pub type SuiResult<T> = Result<T, SuiError>;

impl InvariantViolation {
    /// The text that describes the violation.
    pub fn message(&self) -> (text: &'static str)
        ensures
            text@ == (match *self {
                InvariantViolation::NonGasCoinAsGas =>
                    "Provided non-gas coin object as input for gas!"@,
                InvariantViolation::GasCoinEncoding => "Deserializing Gas coin should not fail!"@,
                InvariantViolation::UnexpectedOldVersion =>
                    "Expected to find old object with version {expected_version}"@,
                InvariantViolation::OldObjectMissing =>
                    "Looking up storage rebate of mutated object should not fail"@,
            }),
    {
        match *self {
            InvariantViolation::NonGasCoinAsGas => "Provided non-gas coin object as input for gas!",
            InvariantViolation::GasCoinEncoding => "Deserializing Gas coin should not fail!",
            InvariantViolation::UnexpectedOldVersion =>
                "Expected to find old object with version {expected_version}",
            InvariantViolation::OldObjectMissing =>
                "Looking up storage rebate of mutated object should not fail",
        }
    }
}

} // verus!

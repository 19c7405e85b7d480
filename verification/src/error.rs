//! The failures an operation can report, and their form on the host.

use vstd::prelude::*;

verus! {

/// The host's error value. It is opaque here: a value of it is only made and
/// handed on.
#[verifier::external_type_specification]
#[verifier::external_body]
pub struct ExHostError(soroban_sdk::Error);

/// The host error of class "contract" that carries `code`, as
/// `soroban_sdk::Error::from_contract_error` builds it.
pub uninterp spec fn contract_error(code: u32) -> soroban_sdk::Error;

/// Why an operation was rejected.
#[derive(Clone, Copy, Debug, PartialEq, Eq, Structural)]
pub enum ContractError {
    /// Two lists that must pair up have different lengths.
    LengthMismatch,
    /// The sender of a transfer holds less than the amount to move.
    InsufficientBalance,
    /// A transfer cannot be carried out: the token refuses it, or the
    /// reserve it pays into cannot hold the amount.
    TransferFailed,
    /// The host did not authorize the call for the principal, or the
    /// principal is not the administrator.
    Unauthorized,
    /// The administrator is already set.
    AlreadyInitialized,
    /// No pool is recorded under the pair, or none with shares issued where
    /// a swap or a withdrawal needs them, or the pair names one token twice.
    PoolNotFound,
    /// The computed output is below the minimum the caller accepts.
    InsufficientOutput,
    /// The principal holds fewer shares than asked for, or a deposit would
    /// be issued no share.
    InsufficientShares,
    /// The fee asked for is above the cap.
    FeeTooHigh,
    /// An amount to deposit or to swap is zero or negative, or the shares
    /// to burn are negative.
    InvalidAmount,
    /// No fee is set yet: the exchange has not been initialized.
    NotInitialized,
}

impl ContractError {
    /// The number under which the host knows this error.
    pub open spec fn spec_code(self) -> u32 {
        match self {
            ContractError::LengthMismatch => 1,
            ContractError::InsufficientBalance => 2,
            ContractError::TransferFailed => 3,
            ContractError::Unauthorized => 4,
            ContractError::AlreadyInitialized => 5,
            ContractError::PoolNotFound => 6,
            ContractError::InsufficientOutput => 7,
            ContractError::InsufficientShares => 8,
            ContractError::FeeTooHigh => 9,
            ContractError::InvalidAmount => 10,
            ContractError::NotInitialized => 11,
        }
    }

    /// The number under which the host knows this error.
    #[verifier::when_used_as_spec(spec_code)]
    pub fn code(self) -> (c: u32)
        ensures
            c == self.spec_code(),
    {
        match self {
            ContractError::LengthMismatch => 1,
            ContractError::InsufficientBalance => 2,
            ContractError::TransferFailed => 3,
            ContractError::Unauthorized => 4,
            ContractError::AlreadyInitialized => 5,
            ContractError::PoolNotFound => 6,
            ContractError::InsufficientOutput => 7,
            ContractError::InsufficientShares => 8,
            ContractError::FeeTooHigh => 9,
            ContractError::InvalidAmount => 10,
            ContractError::NotInitialized => 11,
        }
    }
}

impl vstd::std_specs::convert::FromSpecImpl<ContractError> for soroban_sdk::Error {
    open spec fn obeys_from_spec() -> bool {
        true
    }

    open spec fn from_spec(e: ContractError) -> soroban_sdk::Error {
        contract_error(e.spec_code())
    }
}

impl From<ContractError> for soroban_sdk::Error {
    /// The host's error value for `e`: the contract error that carries its
    /// code.
    fn from(e: ContractError) -> (r: soroban_sdk::Error)
        ensures
            r == contract_error(e.spec_code()),
    {
        host_contract_error(e.code())
    }
}

impl vstd::std_specs::convert::FromSpecImpl<soroban_sdk::Error> for ContractError {
    open spec fn obeys_from_spec() -> bool {
        true
    }

    open spec fn from_spec(e: soroban_sdk::Error) -> ContractError {
        ContractError::TransferFailed
    }
}

impl From<soroban_sdk::Error> for ContractError {
    /// Whatever the host reports while tokens move counts as a failed
    /// transfer.
    fn from(e: soroban_sdk::Error) -> (r: ContractError)
        ensures
            r == ContractError::TransferFailed,
    {
        ContractError::TransferFailed
    }
}

/// Calls `soroban_sdk::Error::from_contract_error`, which packs `code` into
/// an error of class "contract". The contract names that value and claims
/// nothing else of it.
#[verifier::external_body]
fn host_contract_error(code: u32) -> (e: soroban_sdk::Error)
    ensures
        e == contract_error(code),
{
    soroban_sdk::Error::from_contract_error(code)
}

} // verus!

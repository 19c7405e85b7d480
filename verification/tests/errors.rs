use amm_engine::{Address, AddressKind, ContractError};

const ALL: [(ContractError, u32); 11] = [
    (ContractError::LengthMismatch, 1),
    (ContractError::InsufficientBalance, 2),
    (ContractError::TransferFailed, 3),
    (ContractError::Unauthorized, 4),
    (ContractError::AlreadyInitialized, 5),
    (ContractError::PoolNotFound, 6),
    (ContractError::InsufficientOutput, 7),
    (ContractError::InsufficientShares, 8),
    (ContractError::FeeTooHigh, 9),
    (ContractError::InvalidAmount, 10),
    (ContractError::NotInitialized, 11),
];

#[test]
fn each_error_has_its_code() {
    for (error, code) in ALL {
        assert_eq!(error.code(), code);
    }
}

#[test]
fn error_becomes_the_contract_error_of_its_code() {
    for (error, code) in ALL {
        let host = soroban_sdk::Error::from(error);
        assert_eq!(host, soroban_sdk::Error::from_contract_error(code));
        assert_eq!(host.get_code(), code);
        assert!(host.is_type(soroban_sdk::xdr::ScErrorType::Contract));
    }
    let host: soroban_sdk::Error = ContractError::InsufficientBalance.into();
    assert_ne!(host, soroban_sdk::Error::from_contract_error(3));
}

#[test]
fn host_error_counts_as_failed_transfer() {
    let contract = soroban_sdk::Error::from_contract_error(1);
    assert_eq!(ContractError::from(contract), ContractError::TransferFailed);
    let storage = soroban_sdk::Error::from_type_and_code(
        soroban_sdk::xdr::ScErrorType::Storage,
        soroban_sdk::xdr::ScErrorCode::MissingValue,
    );
    assert_eq!(ContractError::from(storage), ContractError::TransferFailed);
}

#[test]
fn addresses_are_told_apart_by_every_part() {
    let account = Address::account(1, 2);
    assert_eq!(account, Address { kind: AddressKind::Account, high: 1, low: 2 });
    assert_eq!(Address::contract(1, 2), Address { kind: AddressKind::Contract, high: 1, low: 2 });
    assert_ne!(account, Address::contract(1, 2));
    assert_ne!(account, Address::account(2, 2));
    assert_ne!(account, Address::account(1, 3));
    assert_eq!(account, Address::account(1, 2));
}

use std::collections::HashMap;

use amm_engine::{Address, BulkPayroll, ContractError, Transfer};

fn token() -> Address {
    Address::contract(0, 0)
}

fn sender() -> Address {
    Address::account(1, 0)
}

fn recipient(n: u128) -> Address {
    Address::account(2, n)
}

/// Carries the transfers out on a table of balances.
fn settle(balances: &mut HashMap<Address, i128>, transfers: &[Transfer]) {
    for transfer in transfers {
        *balances.entry(transfer.from).or_insert(0) -= transfer.amount;
        *balances.entry(transfer.to).or_insert(0) += transfer.amount;
    }
}

#[test]
fn test_bulk_transfer_native() {
    // the sender is funded
    let mut balances: HashMap<Address, i128> = HashMap::new();
    balances.insert(sender(), 1000);

    let recipients = vec![recipient(1), recipient(2)];
    let amounts = vec![400_i128, 500_i128];

    let (transfers, total) =
        BulkPayroll::bulk_transfer(sender(), token(), &recipients, &amounts, true, balances[&sender()])
            .unwrap();
    settle(&mut balances, &transfers);
    assert_eq!(total, 900);

    assert_eq!(balances[&sender()], 100);
    assert_eq!(balances[&recipient(1)], 400);
    assert_eq!(balances[&recipient(2)], 500);
}

#[test]
fn bulk_transfer_lists_each_payment_in_order() {
    let recipients = vec![recipient(1), recipient(2), recipient(1)];
    let amounts = vec![400, 500, 1];
    assert_eq!(
        BulkPayroll::bulk_transfer(sender(), token(), &recipients, &amounts, true, 901),
        Ok((
            vec![
                Transfer { token: token(), from: sender(), to: recipient(1), amount: 400 },
                Transfer { token: token(), from: sender(), to: recipient(2), amount: 500 },
                Transfer { token: token(), from: sender(), to: recipient(1), amount: 1 },
            ],
            901
        ))
    );
}

#[test]
fn bulk_transfer_of_nothing_is_empty() {
    assert_eq!(
        BulkPayroll::bulk_transfer(sender(), token(), &vec![], &vec![], true, 0),
        Ok((vec![], 0))
    );
    assert_eq!(
        BulkPayroll::bulk_transfer(sender(), token(), &vec![], &vec![], true, -1),
        Err(ContractError::InsufficientBalance)
    );
}

#[test]
fn bulk_transfer_needs_authorization() {
    assert_eq!(
        BulkPayroll::bulk_transfer(sender(), token(), &vec![recipient(1)], &vec![1], false, 1000),
        Err(ContractError::Unauthorized)
    );
}

#[test]
fn bulk_transfer_needs_lists_that_pair_up() {
    assert_eq!(
        BulkPayroll::bulk_transfer(sender(), token(), &vec![recipient(1), recipient(2)], &vec![1], true, 1000),
        Err(ContractError::LengthMismatch)
    );
    assert_eq!(
        BulkPayroll::bulk_transfer(sender(), token(), &vec![], &vec![1], true, 1000),
        Err(ContractError::LengthMismatch)
    );
    // the lengths are looked at before the balance
    assert_eq!(
        BulkPayroll::bulk_transfer(sender(), token(), &vec![recipient(1)], &vec![5, 5], true, 0),
        Err(ContractError::LengthMismatch)
    );
}

#[test]
fn bulk_transfer_needs_the_balance_to_cover_the_sum() {
    let recipients = vec![recipient(1), recipient(2)];
    let amounts = vec![400, 500];
    assert_eq!(
        BulkPayroll::bulk_transfer(sender(), token(), &recipients, &amounts, true, 899),
        Err(ContractError::InsufficientBalance)
    );
    assert!(BulkPayroll::bulk_transfer(sender(), token(), &recipients, &amounts, true, 900).is_ok());
}

#[test]
fn bulk_transfer_sums_exactly() {
    let most = i128::MAX;
    let least = i128::MIN;
    let three = vec![recipient(1), recipient(2), recipient(3)];
    // the sum is beyond every balance
    assert_eq!(
        BulkPayroll::bulk_transfer(sender(), token(), &three, &vec![most, most, 1], true, most),
        Err(ContractError::InsufficientBalance)
    );
    assert_eq!(
        BulkPayroll::bulk_transfer(sender(), token(), &three, &vec![most, 1, 0], true, most),
        Err(ContractError::InsufficientBalance)
    );
    // a partial sum leaves the range, the sum does not
    assert!(BulkPayroll::bulk_transfer(sender(), token(), &three, &vec![most, 1, -1], true, most).is_ok());
    assert_eq!(
        BulkPayroll::bulk_transfer(sender(), token(), &three, &vec![most, 1, -1], true, most - 1),
        Err(ContractError::InsufficientBalance)
    );
    assert!(BulkPayroll::bulk_transfer(sender(), token(), &three, &vec![most, most, least], true, most - 1)
        .is_ok());
    assert_eq!(
        BulkPayroll::bulk_transfer(sender(), token(), &three, &vec![most, most, least], true, most - 2),
        Err(ContractError::InsufficientBalance)
    );
    // the sum is below every balance
    assert!(BulkPayroll::bulk_transfer(sender(), token(), &three, &vec![least, least, -1], true, least).is_ok());
    assert!(BulkPayroll::bulk_transfer(sender(), token(), &three, &vec![least, -1, 0], true, least).is_ok());
    assert!(BulkPayroll::bulk_transfer(sender(), token(), &three, &vec![least, -1, 1], true, least).is_ok());
    assert_eq!(
        BulkPayroll::bulk_transfer(sender(), token(), &three, &vec![least, 1, 0], true, least),
        Err(ContractError::InsufficientBalance)
    );
    assert_eq!(
        BulkPayroll::bulk_transfer(sender(), token(), &three, &vec![-5, 2, 2], true, -2),
        Err(ContractError::InsufficientBalance)
    );
    assert!(BulkPayroll::bulk_transfer(sender(), token(), &three, &vec![-5, 2, 2], true, -1).is_ok());
}

#[test]
fn bulk_transfer_returns_the_sum() {
    let most = i128::MAX;
    let least = i128::MIN;
    let three = vec![recipient(1), recipient(2), recipient(3)];
    let sum = |amounts: Vec<i128>, balance: i128| {
        BulkPayroll::bulk_transfer(sender(), token(), &three, &amounts, true, balance).unwrap().1
    };
    assert_eq!(sum(vec![1, 2, 3], 6), 6);
    assert_eq!(sum(vec![-5, 2, 2], 0), -1);
    // partial sums beyond the largest value do not bend the sum
    assert_eq!(sum(vec![most, 1, -1], most), most);
    assert_eq!(sum(vec![most, most, least], most), most - 1);
    assert_eq!(sum(vec![most, least, 0], 0), -1);
    assert_eq!(sum(vec![least, most, most], most), most - 1);
    assert_eq!(sum(vec![least, -1, 1], 0), least);
    assert_eq!(sum(vec![least, 0, 0], least), least);
    // a sum below the least value is returned as the least value
    assert_eq!(sum(vec![least, -1, 0], 0), least);
    assert_eq!(sum(vec![least, least, least], least), least);
}

use amm_engine::{
    Address, ContractError, DataKey, PoolInfo, PoolKey, Position, SwapContract, UserBalance,
};

fn token_x() -> Address {
    Address::contract(0, 1)
}

fn token_y() -> Address {
    Address::contract(0, 2)
}

fn admin() -> Address {
    Address::account(9, 9)
}

fn alice() -> Address {
    Address::account(7, 1)
}

fn bob() -> Address {
    Address::account(7, 2)
}

fn pair() -> PoolKey {
    PoolKey::new(token_x(), token_y())
}

fn initialized() -> SwapContract {
    let mut contract = SwapContract::new();
    assert_eq!(contract.initialize(admin()), Ok(()));
    contract
}

/// An initialized exchange whose pool of x and y holds (1000, 4000), all
/// 2000 shares with alice.
fn funded() -> SwapContract {
    let mut contract = initialized();
    assert_eq!(
        contract.add_liquidity(token_x(), token_y(), 1000, 4000, alice(), true, 1000, 4000),
        Ok(2000)
    );
    contract
}

fn pool(contract: &SwapContract) -> PoolInfo {
    contract.get_pool_info(token_x(), token_y())
}

fn held_total(contract: &SwapContract, key: &PoolKey) -> i128 {
    contract.holdings().iter().filter(|entry| entry.0.pool == *key).map(|entry| entry.1).sum()
}

#[test]
fn deposit_swap_withdraw_scenario() {
    let mut contract = initialized();
    assert_eq!(contract.fee(), Some(30));

    let shares = contract.add_liquidity(token_x(), token_y(), 1000, 4000, alice(), true, 1000, 4000);
    assert_eq!(shares, Ok(2000));
    assert_eq!(
        pool(&contract),
        PoolInfo { token_a_reserve: 1000, token_b_reserve: 4000, total_shares: 2000 }
    );

    // 100 less the fee of 30 basis points is 99; 4000 * 99 / 1099 is 360
    let out = contract.swap(token_x(), token_y(), 100, 0, bob(), true, 100, 4000);
    assert_eq!(out, Ok(360));
    // the whole input enters the reserve, the fee included
    let after = pool(&contract);
    assert_eq!(after, PoolInfo { token_a_reserve: 1100, token_b_reserve: 3640, total_shares: 2000 });
    assert_eq!(after.token_a_reserve * after.token_b_reserve, 4_004_000);
    assert!(after.token_a_reserve * after.token_b_reserve >= 4_000_000);

    // the sole shareholder takes everything
    let back = contract.remove_liquidity(token_x(), token_y(), 2000, 0, 0, alice(), true, 1100, 3640);
    assert_eq!(back, Ok((1100, 3640)));
    assert_eq!(
        pool(&contract),
        PoolInfo { token_a_reserve: 0, token_b_reserve: 0, total_shares: 0 }
    );
    assert_eq!(contract.get_user_balance(alice()).shares_of(&pair()), 0);
}

#[test]
fn new_exchange_is_empty() {
    let contract = SwapContract::new();
    assert_eq!(contract.admin(), None);
    assert_eq!(contract.fee(), None);
    assert!(contract.pools().is_empty());
    assert!(contract.holdings().is_empty());
    assert!(!contract.has(&DataKey::Admin));
    assert!(!contract.has(&DataKey::SwapFee));
    assert!(!contract.has(&DataKey::LiquidityPool(token_x(), token_y())));
    assert!(!contract.has(&DataKey::UserBalance(alice())));
}

#[test]
fn initialize_sets_admin_and_default_fee() {
    let mut contract = SwapContract::new();
    assert_eq!(contract.initialize(admin()), Ok(()));
    assert_eq!(contract.admin(), Some(admin()));
    assert_eq!(contract.fee(), Some(30));
    assert!(contract.has(&DataKey::Admin));
    assert!(contract.has(&DataKey::SwapFee));
}

#[test]
fn second_initialize_fails_and_changes_nothing() {
    let mut contract = initialized();
    assert_eq!(contract.set_fee(55, admin(), true), Ok(()));
    assert_eq!(contract.initialize(alice()), Err(ContractError::AlreadyInitialized));
    assert_eq!(contract.initialize(admin()), Err(ContractError::AlreadyInitialized));
    assert_eq!(contract.admin(), Some(admin()));
    assert_eq!(contract.fee(), Some(55));
}

#[test]
fn set_fee_is_for_the_authorized_admin() {
    let mut contract = initialized();
    assert_eq!(contract.set_fee(100, alice(), true), Err(ContractError::Unauthorized));
    assert_eq!(contract.set_fee(100, admin(), false), Err(ContractError::Unauthorized));
    assert_eq!(contract.fee(), Some(30));
    assert_eq!(contract.set_fee(100, admin(), true), Ok(()));
    assert_eq!(contract.fee(), Some(100));
}

#[test]
fn set_fee_before_initialize_is_unauthorized() {
    let mut contract = SwapContract::new();
    assert_eq!(contract.set_fee(10, admin(), true), Err(ContractError::Unauthorized));
    assert_eq!(contract.fee(), None);
}

#[test]
fn set_fee_is_capped() {
    let mut contract = initialized();
    assert_eq!(contract.set_fee(1001, admin(), true), Err(ContractError::FeeTooHigh));
    assert_eq!(contract.fee(), Some(30));
    assert_eq!(contract.set_fee(1000, admin(), true), Ok(()));
    assert_eq!(contract.fee(), Some(1000));
    assert_eq!(contract.set_fee(0, admin(), true), Ok(()));
    assert_eq!(contract.fee(), Some(0));
    // who may not set the fee learns nothing of the cap
    assert_eq!(contract.set_fee(5000, bob(), true), Err(ContractError::Unauthorized));
}

#[test]
fn set_fee_takes_effect_on_the_next_swap() {
    let mut contract = funded();
    assert_eq!(contract.swap(token_x(), token_y(), 100, 0, bob(), true, 100, 4000), Ok(360));
    assert_eq!(contract.set_fee(1000, admin(), true), Ok(()));
    // reserves are (1100, 3640); 100 less 10% is 90; 3640 * 90 / 1190 is 275
    assert_eq!(contract.swap(token_x(), token_y(), 100, 0, bob(), true, 100, 3640), Ok(275));
    assert_eq!(
        pool(&contract),
        PoolInfo { token_a_reserve: 1200, token_b_reserve: 3365, total_shares: 2000 }
    );
}

#[test]
fn first_deposit_is_issued_the_geometric_mean() {
    let mut contract = SwapContract::new();
    assert_eq!(contract.add_liquidity(token_x(), token_y(), 2, 3, alice(), true, 2, 3), Ok(2));
    assert_eq!(pool(&contract), PoolInfo { token_a_reserve: 2, token_b_reserve: 3, total_shares: 2 });
    let mut other = SwapContract::new();
    assert_eq!(other.add_liquidity(token_x(), token_y(), 1, 1, alice(), true, 1, 1), Ok(1));
    let mut third = SwapContract::new();
    assert_eq!(
        third.add_liquidity(token_x(), token_y(), 999_999, 1_000_001, alice(), true, 999_999, 1_000_001),
        Ok(999_999)
    );
}

#[test]
fn first_deposit_of_the_largest_amounts() {
    let mut contract = SwapContract::new();
    let most = i128::MAX;
    assert_eq!(
        contract.add_liquidity(token_x(), token_y(), most, most, alice(), true, most, most),
        Ok(most)
    );
    assert_eq!(
        pool(&contract),
        PoolInfo { token_a_reserve: most, token_b_reserve: most, total_shares: most }
    );
    // nothing more fits into the reserves
    assert_eq!(
        contract.add_liquidity(token_x(), token_y(), 1, 1, bob(), true, 1, 1),
        Err(ContractError::TransferFailed)
    );
    assert_eq!(
        contract.remove_liquidity(token_x(), token_y(), most, 0, 0, alice(), true, most, most),
        Ok((most, most))
    );
}

#[test]
fn later_deposit_is_issued_the_smaller_proportion() {
    let mut contract = funded();
    // 500 * 2000 / 1000 = 1000 and 1000 * 2000 / 4000 = 500
    assert_eq!(
        contract.add_liquidity(token_x(), token_y(), 500, 1000, bob(), true, 500, 1000),
        Ok(500)
    );
    // the surplus of the first token has come in all the same
    assert_eq!(
        pool(&contract),
        PoolInfo { token_a_reserve: 1500, token_b_reserve: 5000, total_shares: 2500 }
    );
    assert_eq!(contract.get_user_balance(bob()).shares_of(&pair()), 500);
    assert_eq!(contract.get_user_balance(alice()).shares_of(&pair()), 2000);
}

#[test]
fn later_deposit_rounds_down() {
    let mut contract = funded();
    // 7 * 2000 / 1000 = 14 and 30 * 2000 / 4000 = 15
    assert_eq!(contract.add_liquidity(token_x(), token_y(), 7, 30, bob(), true, 7, 30), Ok(14));
    // reserves (1007, 4030), shares 2014: 1 * 2014 / 1007 = 2 and 3 * 2014 / 4030 = 1
    assert_eq!(contract.add_liquidity(token_x(), token_y(), 1, 3, bob(), true, 1, 3), Ok(1));
    assert_eq!(contract.get_user_balance(bob()).shares_of(&pair()), 15);
}

#[test]
fn deposit_that_earns_no_share_is_rejected() {
    let mut contract = initialized();
    assert_eq!(
        contract.add_liquidity(token_x(), token_y(), 1_000_000, 1_000_000, alice(), true, 1_000_000, 1_000_000),
        Ok(1_000_000)
    );
    assert_eq!(contract.swap(token_x(), token_y(), 3_000_000, 0, bob(), true, 3_000_000, 1_000_000), Ok(749_436));
    // reserves (4_000_000, 250_564): one unit of the first token is worth no share
    let before = pool(&contract);
    assert_eq!(
        contract.add_liquidity(token_x(), token_y(), 1, 1, bob(), true, 1, 1),
        Err(ContractError::InsufficientShares)
    );
    assert_eq!(pool(&contract), before);
    assert!(!contract.has(&DataKey::UserBalance(bob())));
}

#[test]
fn deposit_needs_authorization() {
    let mut contract = initialized();
    assert_eq!(
        contract.add_liquidity(token_x(), token_y(), 1000, 4000, alice(), false, 1000, 4000),
        Err(ContractError::Unauthorized)
    );
    assert!(contract.pools().is_empty());
    assert!(contract.holdings().is_empty());
}

#[test]
fn deposit_needs_two_different_tokens() {
    let mut contract = initialized();
    assert_eq!(
        contract.add_liquidity(token_x(), token_x(), 1000, 4000, alice(), true, 1000, 4000),
        Err(ContractError::PoolNotFound)
    );
    assert!(contract.pools().is_empty());
}

#[test]
fn deposit_needs_positive_amounts() {
    let mut contract = initialized();
    for (a, b) in [(0, 4000), (1000, 0), (-1, 4000), (1000, -1), (0, 0), (i128::MIN, i128::MIN)] {
        assert_eq!(
            contract.add_liquidity(token_x(), token_y(), a, b, alice(), true, 1000, 4000),
            Err(ContractError::InvalidAmount)
        );
    }
    assert!(contract.pools().is_empty());
    assert!(!contract.has(&DataKey::LiquidityPool(token_x(), token_y())));
}

#[test]
fn deposit_needs_the_funds() {
    let mut contract = initialized();
    assert_eq!(
        contract.add_liquidity(token_x(), token_y(), 1000, 4000, alice(), true, 999, 4000),
        Err(ContractError::InsufficientBalance)
    );
    assert_eq!(
        contract.add_liquidity(token_x(), token_y(), 1000, 4000, alice(), true, 1000, 3999),
        Err(ContractError::InsufficientBalance)
    );
    assert!(contract.pools().is_empty());
    assert!(contract.holdings().is_empty());
}

#[test]
fn deposit_that_overflows_a_reserve_fails() {
    let mut contract = funded();
    let before = pool(&contract);
    assert_eq!(
        contract.add_liquidity(token_x(), token_y(), i128::MAX - 999, 1, bob(), true, i128::MAX, 1),
        Err(ContractError::TransferFailed)
    );
    assert_eq!(
        contract.add_liquidity(token_x(), token_y(), 1, i128::MAX - 3999, bob(), true, 1, i128::MAX),
        Err(ContractError::TransferFailed)
    );
    assert_eq!(pool(&contract), before);
}

#[test]
fn deposit_works_before_initialize() {
    let mut contract = SwapContract::new();
    assert_eq!(
        contract.add_liquidity(token_x(), token_y(), 1000, 4000, alice(), true, 1000, 4000),
        Ok(2000)
    );
    assert_eq!(contract.admin(), None);
}

#[test]
fn records_are_created_with_the_first_deposit() {
    let mut contract = initialized();
    assert!(!contract.has(&DataKey::LiquidityPool(token_x(), token_y())));
    assert!(!contract.has(&DataKey::UserBalance(alice())));
    assert_eq!(
        contract.add_liquidity(token_x(), token_y(), 1000, 4000, alice(), true, 1000, 4000),
        Ok(2000)
    );
    assert!(contract.has(&DataKey::LiquidityPool(token_x(), token_y())));
    assert!(contract.has(&DataKey::UserBalance(alice())));
    assert!(!contract.has(&DataKey::UserBalance(bob())));
    assert!(!contract.has(&DataKey::LiquidityPool(token_y(), token_x())));
}

#[test]
fn pools_are_keyed_by_the_order_of_the_pair() {
    let mut contract = funded();
    assert_eq!(
        contract.get_pool_info(token_y(), token_x()),
        PoolInfo { token_a_reserve: 0, token_b_reserve: 0, total_shares: 0 }
    );
    assert_eq!(
        contract.swap(token_y(), token_x(), 100, 0, bob(), true, 100, 1000),
        Err(ContractError::PoolNotFound)
    );
    assert_eq!(
        contract.add_liquidity(token_y(), token_x(), 9, 4, bob(), true, 9, 4),
        Ok(6)
    );
    assert_eq!(
        contract.get_pool_info(token_y(), token_x()),
        PoolInfo { token_a_reserve: 9, token_b_reserve: 4, total_shares: 6 }
    );
    assert_eq!(
        pool(&contract),
        PoolInfo { token_a_reserve: 1000, token_b_reserve: 4000, total_shares: 2000 }
    );
    assert_eq!(contract.pools().len(), 2);
}

#[test]
fn absent_records_read_as_empty() {
    let contract = initialized();
    assert_eq!(
        pool(&contract),
        PoolInfo { token_a_reserve: 0, token_b_reserve: 0, total_shares: 0 }
    );
    let balance = contract.get_user_balance(alice());
    assert!(balance.pool_shares().is_empty());
    assert!(balance.deposits().is_empty());
    assert_eq!(balance.shares_of(&pair()), 0);
    assert_eq!(balance.deposit_of(&token_x()), 0);
}

#[test]
fn user_balance_lists_each_pool() {
    let mut contract = funded();
    let other = PoolKey::new(token_y(), token_x());
    assert_eq!(contract.add_liquidity(token_y(), token_x(), 9, 4, alice(), true, 9, 4), Ok(6));
    assert_eq!(contract.add_liquidity(token_x(), token_y(), 500, 2000, bob(), true, 500, 2000), Ok(1000));
    let balance = contract.get_user_balance(alice());
    assert_eq!(balance.pool_shares(), &vec![(pair(), 2000), (other, 6)]);
    assert_eq!(balance.shares_of(&pair()), 2000);
    assert_eq!(balance.shares_of(&other), 6);
    assert!(balance.deposits().is_empty());
    assert_eq!(contract.get_user_balance(bob()).pool_shares(), &vec![(pair(), 1000)]);
}

#[test]
fn swap_pays_by_the_constant_product_rule() {
    let mut contract = funded();
    assert_eq!(contract.set_fee(0, admin(), true), Ok(()));
    // without a fee: 4000 * 1000 / 2000 = 2000
    assert_eq!(contract.swap(token_x(), token_y(), 1000, 0, bob(), true, 1000, 4000), Ok(2000));
    assert_eq!(
        pool(&contract),
        PoolInfo { token_a_reserve: 2000, token_b_reserve: 2000, total_shares: 2000 }
    );
}

#[test]
fn swap_conserves_and_grows_the_product() {
    let mut contract = funded();
    let mut product = 1000 * 4000;
    for amount_in in [1, 2, 333, 334, 5, 100_000, 7] {
        let before = pool(&contract);
        let out = contract
            .swap(token_x(), token_y(), amount_in, 0, bob(), true, amount_in, before.token_b_reserve)
            .unwrap();
        let after = pool(&contract);
        assert_eq!(after.token_a_reserve, before.token_a_reserve + amount_in);
        assert_eq!(after.token_b_reserve, before.token_b_reserve - out);
        assert_eq!(after.total_shares, before.total_shares);
        assert!(out < before.token_b_reserve);
        assert!(after.token_a_reserve * after.token_b_reserve >= product);
        product = after.token_a_reserve * after.token_b_reserve;
    }
}

#[test]
fn swap_output_rises_with_the_input() {
    let mut last = 0;
    for amount_in in 1..=2000 {
        let mut contract = funded();
        let out = contract.swap(token_x(), token_y(), amount_in, 0, bob(), true, amount_in, 4000).unwrap();
        assert!(out >= last);
        assert!(out < 4000);
        last = out;
    }
    // 2000 less the fee is 1994; 4000 * 1994 / 2994 is 2663
    assert_eq!(last, 2663);
}

#[test]
fn swap_output_can_stay_level_over_a_step() {
    // 333 and 334 both leave 332 after the fee
    let mut one = funded();
    let mut other = funded();
    assert_eq!(one.swap(token_x(), token_y(), 333, 0, bob(), true, 333, 4000), Ok(996));
    assert_eq!(other.swap(token_x(), token_y(), 334, 0, bob(), true, 334, 4000), Ok(996));
}

#[test]
fn swap_never_drains_the_reserve() {
    let mut contract = funded();
    let huge = i128::MAX - 1000;
    assert_eq!(contract.swap(token_x(), token_y(), huge, 0, bob(), true, huge, 4000), Ok(3999));
    assert_eq!(
        pool(&contract),
        PoolInfo { token_a_reserve: i128::MAX, token_b_reserve: 1, total_shares: 2000 }
    );
    // one unit of the second token is left for good
    assert_eq!(
        contract.swap(token_x(), token_y(), 1, 0, bob(), true, 1, 1),
        Err(ContractError::TransferFailed)
    );
}

#[test]
fn swap_of_a_tiny_input_pays_nothing() {
    let mut contract = funded();
    // one unit less the fee is nothing
    assert_eq!(contract.swap(token_x(), token_y(), 1, 0, bob(), true, 1, 4000), Ok(0));
    assert_eq!(
        pool(&contract),
        PoolInfo { token_a_reserve: 1001, token_b_reserve: 4000, total_shares: 2000 }
    );
}

#[test]
fn swap_guards_against_slippage() {
    let mut contract = funded();
    let before = pool(&contract);
    assert_eq!(
        contract.swap(token_x(), token_y(), 100, 361, bob(), true, 100, 4000),
        Err(ContractError::InsufficientOutput)
    );
    assert_eq!(pool(&contract), before);
    assert_eq!(contract.swap(token_x(), token_y(), 100, 360, bob(), true, 100, 4000), Ok(360));
}

#[test]
fn swap_needs_authorization_and_a_positive_input() {
    let mut contract = funded();
    let before = pool(&contract);
    assert_eq!(
        contract.swap(token_x(), token_y(), 100, 0, bob(), false, 100, 4000),
        Err(ContractError::Unauthorized)
    );
    assert_eq!(
        contract.swap(token_x(), token_y(), 0, 0, bob(), true, 100, 4000),
        Err(ContractError::InvalidAmount)
    );
    assert_eq!(
        contract.swap(token_x(), token_y(), -5, 0, bob(), true, 100, 4000),
        Err(ContractError::InvalidAmount)
    );
    assert_eq!(pool(&contract), before);
}

#[test]
fn swap_needs_a_pool_with_liquidity() {
    let mut contract = initialized();
    assert_eq!(
        contract.swap(token_x(), token_y(), 100, 0, bob(), true, 100, 4000),
        Err(ContractError::PoolNotFound)
    );
    let mut drained = funded();
    assert_eq!(
        drained.remove_liquidity(token_x(), token_y(), 2000, 0, 0, alice(), true, 1000, 4000),
        Ok((1000, 4000))
    );
    assert!(drained.has(&DataKey::LiquidityPool(token_x(), token_y())));
    assert_eq!(
        drained.swap(token_x(), token_y(), 100, 0, bob(), true, 100, 4000),
        Err(ContractError::PoolNotFound)
    );
}

#[test]
fn swap_needs_a_fee() {
    // a pool can be funded before the exchange is initialized, not swapped against
    let mut contract = SwapContract::new();
    contract.add_liquidity(token_x(), token_y(), 1000, 4000, alice(), true, 1000, 4000).unwrap();
    let before = pool(&contract);
    assert_eq!(
        contract.swap(token_x(), token_y(), 100, 0, bob(), true, 100, 4000),
        Err(ContractError::NotInitialized)
    );
    assert_eq!(
        contract.swap(token_y(), token_x(), 100, 0, bob(), true, 100, 4000),
        Err(ContractError::PoolNotFound)
    );
    assert_eq!(pool(&contract), before);
    assert_eq!(contract.initialize(admin()), Ok(()));
    assert_eq!(contract.swap(token_x(), token_y(), 100, 0, bob(), true, 100, 4000), Ok(360));
}

#[test]
fn swap_needs_the_funds_on_both_sides() {
    let mut contract = funded();
    let before = pool(&contract);
    assert_eq!(
        contract.swap(token_x(), token_y(), 100, 0, bob(), true, 99, 4000),
        Err(ContractError::InsufficientBalance)
    );
    assert_eq!(
        contract.swap(token_x(), token_y(), 100, 0, bob(), true, 100, 359),
        Err(ContractError::InsufficientBalance)
    );
    assert_eq!(pool(&contract), before);
    assert_eq!(contract.swap(token_x(), token_y(), 100, 0, bob(), true, 100, 360), Ok(360));
}

#[test]
fn swap_leaves_holdings_alone() {
    let mut contract = funded();
    assert_eq!(contract.swap(token_x(), token_y(), 100, 0, bob(), true, 100, 4000), Ok(360));
    assert!(!contract.has(&DataKey::UserBalance(bob())));
    assert_eq!(contract.holdings(), &vec![(Position { holder: alice(), pool: pair() }, 2000)]);
}

#[test]
fn withdrawal_returns_the_proportion_rounded_down() {
    let mut contract = funded();
    assert_eq!(contract.swap(token_x(), token_y(), 100, 0, bob(), true, 100, 4000), Ok(360));
    // 333 * 1100 / 2000 = 183 and 333 * 3640 / 2000 = 606
    assert_eq!(
        contract.remove_liquidity(token_x(), token_y(), 333, 0, 0, alice(), true, 1100, 3640),
        Ok((183, 606))
    );
    assert_eq!(
        pool(&contract),
        PoolInfo { token_a_reserve: 917, token_b_reserve: 3034, total_shares: 1667 }
    );
    assert_eq!(contract.get_user_balance(alice()).shares_of(&pair()), 1667);
}

#[test]
fn withdrawal_guards_against_slippage() {
    let mut contract = funded();
    let before = pool(&contract);
    assert_eq!(
        contract.remove_liquidity(token_x(), token_y(), 1000, 501, 0, alice(), true, 1000, 4000),
        Err(ContractError::InsufficientOutput)
    );
    assert_eq!(
        contract.remove_liquidity(token_x(), token_y(), 1000, 0, 2001, alice(), true, 1000, 4000),
        Err(ContractError::InsufficientOutput)
    );
    assert_eq!(pool(&contract), before);
    assert_eq!(contract.get_user_balance(alice()).shares_of(&pair()), 2000);
    assert_eq!(
        contract.remove_liquidity(token_x(), token_y(), 1000, 500, 2000, alice(), true, 1000, 4000),
        Ok((500, 2000))
    );
}

#[test]
fn withdrawal_needs_the_shares() {
    let mut contract = funded();
    assert_eq!(
        contract.remove_liquidity(token_x(), token_y(), 2001, 0, 0, alice(), true, 1000, 4000),
        Err(ContractError::InsufficientShares)
    );
    assert_eq!(
        contract.remove_liquidity(token_x(), token_y(), 1, 0, 0, bob(), true, 1000, 4000),
        Err(ContractError::InsufficientShares)
    );
    assert_eq!(
        pool(&contract),
        PoolInfo { token_a_reserve: 1000, token_b_reserve: 4000, total_shares: 2000 }
    );
}

#[test]
fn withdrawal_needs_a_recorded_pool() {
    let mut contract = funded();
    assert_eq!(
        contract.remove_liquidity(token_y(), token_x(), 1, 0, 0, alice(), true, 1000, 4000),
        Err(ContractError::PoolNotFound)
    );
}

#[test]
fn withdrawal_from_a_drained_pool_fails() {
    let mut contract = funded();
    assert_eq!(
        contract.remove_liquidity(token_x(), token_y(), 2000, 0, 0, alice(), true, 1000, 4000),
        Ok((1000, 4000))
    );
    // the record stays, with nothing in it, and nothing divides by its shares
    assert_eq!(
        contract.remove_liquidity(token_x(), token_y(), 1, 0, 0, alice(), true, 1000, 4000),
        Err(ContractError::InsufficientShares)
    );
    assert!(contract.has(&DataKey::UserBalance(alice())));
    // and takes deposits again
    assert_eq!(contract.add_liquidity(token_x(), token_y(), 4, 9, bob(), true, 4, 9), Ok(6));
    assert_eq!(pool(&contract), PoolInfo { token_a_reserve: 4, token_b_reserve: 9, total_shares: 6 });
}

#[test]
fn withdrawal_needs_authorization() {
    let mut contract = funded();
    assert_eq!(
        contract.remove_liquidity(token_x(), token_y(), 10, 0, 0, alice(), false, 1000, 4000),
        Err(ContractError::Unauthorized)
    );
    // before anything else is looked at
    assert_eq!(
        contract.remove_liquidity(token_y(), token_x(), 0, 0, 0, alice(), false, 1000, 4000),
        Err(ContractError::Unauthorized)
    );
    assert_eq!(contract.get_user_balance(alice()).shares_of(&pair()), 2000);
}

#[test]
fn withdrawal_of_no_shares_returns_nothing() {
    let mut contract = funded();
    let before = pool(&contract);
    assert_eq!(
        contract.remove_liquidity(token_x(), token_y(), 0, 0, 0, alice(), true, 1000, 4000),
        Ok((0, 0))
    );
    assert_eq!(
        contract.remove_liquidity(token_x(), token_y(), 0, -5, -5, alice(), true, 0, 0),
        Ok((0, 0))
    );
    assert_eq!(pool(&contract), before);
    assert_eq!(contract.get_user_balance(alice()).shares_of(&pair()), 2000);
    // a principal without a record holds no shares, and gets no record by it
    assert_eq!(
        contract.remove_liquidity(token_x(), token_y(), 0, 0, 0, bob(), true, 1000, 4000),
        Ok((0, 0))
    );
    assert!(!contract.has(&DataKey::UserBalance(bob())));
    assert_eq!(contract.holdings().len(), 1);
    assert_eq!(pool(&contract), before);
}

#[test]
fn withdrawal_of_no_shares_meets_the_same_tests() {
    let mut contract = funded();
    // no record under the pair
    assert_eq!(
        contract.remove_liquidity(token_y(), token_x(), 0, 0, 0, alice(), true, 1000, 4000),
        Err(ContractError::PoolNotFound)
    );
    // nothing is below a minimum of one
    assert_eq!(
        contract.remove_liquidity(token_x(), token_y(), 0, 1, 0, alice(), true, 1000, 4000),
        Err(ContractError::InsufficientOutput)
    );
    assert_eq!(
        contract.remove_liquidity(token_x(), token_y(), 0, 0, 1, alice(), true, 1000, 4000),
        Err(ContractError::InsufficientOutput)
    );
    assert_eq!(
        pool(&contract),
        PoolInfo { token_a_reserve: 1000, token_b_reserve: 4000, total_shares: 2000 }
    );
}

#[test]
fn withdrawal_from_a_drained_pool_divides_by_nothing() {
    let mut contract = funded();
    assert_eq!(
        contract.remove_liquidity(token_x(), token_y(), 2000, 0, 0, alice(), true, 1000, 4000),
        Ok((1000, 4000))
    );
    assert_eq!(
        contract.remove_liquidity(token_x(), token_y(), 0, 0, 0, alice(), true, 1000, 4000),
        Err(ContractError::PoolNotFound)
    );
    assert_eq!(
        contract.remove_liquidity(token_x(), token_y(), -1, i128::MIN, i128::MIN, alice(), true, 0, 0),
        Err(ContractError::PoolNotFound)
    );
    // the shares held are looked at first
    assert_eq!(
        contract.remove_liquidity(token_x(), token_y(), 1, 0, 0, alice(), true, 1000, 4000),
        Err(ContractError::InsufficientShares)
    );
    assert!(contract.has(&DataKey::LiquidityPool(token_x(), token_y())));
}

#[test]
fn withdrawal_of_negative_shares_is_refused() {
    let mut contract = funded();
    let before = pool(&contract);
    // minus one share is worth -1000 / 2000 and -4000 / 2000, rounded down: -1 and -2
    assert_eq!(
        contract.remove_liquidity(token_x(), token_y(), -1, 0, 0, alice(), true, 1000, 4000),
        Err(ContractError::InsufficientOutput)
    );
    assert_eq!(
        contract.remove_liquidity(token_x(), token_y(), -1, -1, -1, alice(), true, 1000, 4000),
        Err(ContractError::InsufficientOutput)
    );
    assert_eq!(
        contract.remove_liquidity(token_x(), token_y(), -1, 0, -2, alice(), true, 1000, 4000),
        Err(ContractError::InsufficientOutput)
    );
    // what passes the minimums is refused for its sign
    assert_eq!(
        contract.remove_liquidity(token_x(), token_y(), -1, -1, -2, alice(), true, 1000, 4000),
        Err(ContractError::InvalidAmount)
    );
    assert_eq!(
        contract.remove_liquidity(token_x(), token_y(), -10, i128::MIN, i128::MIN, bob(), true, 0, 0),
        Err(ContractError::InvalidAmount)
    );
    // -3 shares are worth exactly -6 of the second token
    assert_eq!(
        contract.remove_liquidity(token_x(), token_y(), -3, -2, -6, alice(), true, 1000, 4000),
        Err(ContractError::InvalidAmount)
    );
    assert_eq!(
        contract.remove_liquidity(token_x(), token_y(), -3, -2, -5, alice(), true, 1000, 4000),
        Err(ContractError::InsufficientOutput)
    );
    assert_eq!(
        contract.remove_liquidity(token_x(), token_y(), -3, -1, -6, alice(), true, 1000, 4000),
        Err(ContractError::InsufficientOutput)
    );
    assert_eq!(pool(&contract), before);
    assert_eq!(contract.get_user_balance(alice()).shares_of(&pair()), 2000);
    assert!(!contract.has(&DataKey::UserBalance(bob())));
}

#[test]
fn withdrawal_of_the_least_number_of_shares() {
    let least = i128::MIN;
    // worth twice the least value of the second token: below every minimum
    let mut contract = funded();
    assert_eq!(
        contract.remove_liquidity(token_x(), token_y(), least, least, least, alice(), true, 0, 0),
        Err(ContractError::InsufficientOutput)
    );
    // in a pool of (10, 10) with 10 shares they are worth the least value of both
    let mut even = SwapContract::new();
    assert_eq!(even.add_liquidity(token_x(), token_y(), 10, 10, alice(), true, 10, 10), Ok(10));
    assert_eq!(
        even.remove_liquidity(token_x(), token_y(), least, least, least, alice(), true, 0, 0),
        Err(ContractError::InvalidAmount)
    );
    assert_eq!(
        even.remove_liquidity(token_x(), token_y(), least, least + 1, least, alice(), true, 0, 0),
        Err(ContractError::InsufficientOutput)
    );
    assert_eq!(pool(&even), PoolInfo { token_a_reserve: 10, token_b_reserve: 10, total_shares: 10 });
}

#[test]
fn withdrawal_needs_custody_to_cover_it() {
    let mut contract = funded();
    assert_eq!(
        contract.remove_liquidity(token_x(), token_y(), 1000, 0, 0, alice(), true, 499, 4000),
        Err(ContractError::InsufficientBalance)
    );
    assert_eq!(
        contract.remove_liquidity(token_x(), token_y(), 1000, 0, 0, alice(), true, 1000, 1999),
        Err(ContractError::InsufficientBalance)
    );
    assert_eq!(contract.get_user_balance(alice()).shares_of(&pair()), 2000);
}

#[test]
fn holdings_add_up_to_the_shares_issued() {
    let mut contract = initialized();
    let other = PoolKey::new(token_y(), token_x());
    let carol = Address::account(7, 3);
    contract.add_liquidity(token_x(), token_y(), 1000, 4000, alice(), true, 1000, 4000).unwrap();
    assert_eq!(held_total(&contract, &pair()), pool(&contract).total_shares);
    contract.add_liquidity(token_x(), token_y(), 10, 77, bob(), true, 10, 77).unwrap();
    contract.add_liquidity(token_y(), token_x(), 50, 50, bob(), true, 50, 50).unwrap();
    contract.add_liquidity(token_x(), token_y(), 123, 456, carol, true, 123, 456).unwrap();
    contract.swap(token_x(), token_y(), 250, 0, carol, true, 250, 10_000).unwrap();
    contract.remove_liquidity(token_x(), token_y(), 700, 0, 0, alice(), true, 10_000, 10_000).unwrap();
    contract.add_liquidity(token_x(), token_y(), 31, 99, alice(), true, 31, 99).unwrap();
    contract.remove_liquidity(token_y(), token_x(), 50, 0, 0, bob(), true, 50, 50).unwrap();
    assert_eq!(held_total(&contract, &pair()), pool(&contract).total_shares);
    assert_eq!(held_total(&contract, &other), contract.get_pool_info(token_y(), token_x()).total_shares);
    assert_eq!(held_total(&contract, &other), 0);
    let sum = contract.get_user_balance(alice()).shares_of(&pair())
        + contract.get_user_balance(bob()).shares_of(&pair())
        + contract.get_user_balance(carol).shares_of(&pair());
    assert_eq!(sum, pool(&contract).total_shares);
}

#[test]
fn deposit_then_withdrawal_returns_no_more() {
    for (a, b) in [(1, 1), (7, 30), (500, 1000), (1000, 4000), (999, 4001), (123_456, 3)] {
        let mut contract = funded();
        contract.swap(token_x(), token_y(), 77, 0, alice(), true, 77, 4000).unwrap();
        let deposit = contract.add_liquidity(token_x(), token_y(), a, b, bob(), true, a, b);
        if let Ok(shares) = deposit {
            let (back_a, back_b) = contract
                .remove_liquidity(token_x(), token_y(), shares, 0, 0, bob(), true, i128::MAX, i128::MAX)
                .unwrap();
            assert!(back_a <= a);
            assert!(back_b <= b);
        } else {
            assert_eq!(deposit, Err(ContractError::InsufficientShares));
        }
    }
    // a first deposit comes back whole
    let mut contract = SwapContract::new();
    let shares = contract.add_liquidity(token_x(), token_y(), 17, 5, bob(), true, 17, 5).unwrap();
    assert_eq!(shares, 9);
    assert_eq!(
        contract.remove_liquidity(token_x(), token_y(), shares, 0, 0, bob(), true, 17, 5),
        Ok((17, 5))
    );
}

#[test]
fn restore_takes_what_was_recorded() {
    let mut contract = funded();
    contract.add_liquidity(token_y(), token_x(), 50, 50, bob(), true, 50, 50).unwrap();
    contract.swap(token_x(), token_y(), 250, 0, bob(), true, 250, 10_000).unwrap();
    let restored = SwapContract::restore(
        contract.admin(),
        contract.fee(),
        contract.pools().clone(),
        contract.holdings().clone(),
    )
    .unwrap();
    assert_eq!(restored.admin(), contract.admin());
    assert_eq!(restored.fee(), contract.fee());
    assert_eq!(restored.pools(), contract.pools());
    assert_eq!(restored.holdings(), contract.holdings());
    let mut restored = restored;
    assert_eq!(
        restored.remove_liquidity(token_x(), token_y(), 2000, 0, 0, alice(), true, 10_000, 10_000),
        contract.remove_liquidity(token_x(), token_y(), 2000, 0, 0, alice(), true, 10_000, 10_000)
    );
}

#[test]
fn restore_of_nothing_is_the_new_exchange() {
    let restored = SwapContract::restore(None, None, vec![], vec![]).unwrap();
    assert_eq!(restored.admin(), None);
    assert!(restored.pools().is_empty());
}

#[test]
fn restore_refuses_what_is_not_well_formed() {
    let good_pool = PoolInfo { token_a_reserve: 1000, token_b_reserve: 4000, total_shares: 2000 };
    let at_alice = Position { holder: alice(), pool: pair() };
    let at_bob = Position { holder: bob(), pool: pair() };
    let refused = |admin: Option<Address>,
                   fee: Option<u32>,
                   pools: Vec<(PoolKey, PoolInfo)>,
                   holdings: Vec<(Position, i128)>| {
        SwapContract::restore(admin, fee, pools, holdings).is_none()
    };
    assert!(!refused(Some(admin()), Some(30), vec![(pair(), good_pool)], vec![(at_alice, 2000)]));
    assert!(!refused(None, None, vec![(pair(), good_pool)], vec![(at_alice, 1500), (at_bob, 500)]));
    // administrator and fee go together, and the fee has a cap
    assert!(refused(Some(admin()), None, vec![], vec![]));
    assert!(refused(None, Some(30), vec![], vec![]));
    assert!(refused(Some(admin()), Some(1001), vec![], vec![]));
    assert!(!refused(Some(admin()), Some(1000), vec![], vec![]));
    // a pair is recorded once, of two different tokens
    assert!(refused(None, None, vec![(pair(), good_pool), (pair(), good_pool)], vec![(at_alice, 2000)]));
    assert!(refused(
        None,
        None,
        vec![(PoolKey::new(token_x(), token_x()), good_pool)],
        vec![(Position { holder: alice(), pool: PoolKey::new(token_x(), token_x()) }, 2000)]
    ));
    // a pool is well formed
    for bad in [
        PoolInfo { token_a_reserve: -1, token_b_reserve: 4000, total_shares: 0 },
        PoolInfo { token_a_reserve: 1000, token_b_reserve: 4000, total_shares: 0 },
        PoolInfo { token_a_reserve: 1000, token_b_reserve: 4000, total_shares: 2001 },
        PoolInfo { token_a_reserve: 0, token_b_reserve: 4000, total_shares: 1 },
    ] {
        assert!(refused(None, None, vec![(pair(), bad)], vec![(at_alice, bad.total_shares)]));
    }
    // holdings are recorded once, are not negative and add up
    assert!(refused(None, None, vec![(pair(), good_pool)], vec![(at_alice, 1000), (at_alice, 1000)]));
    assert!(refused(None, None, vec![(pair(), good_pool)], vec![(at_alice, 2001), (at_bob, -1)]));
    assert!(refused(None, None, vec![(pair(), good_pool)], vec![(at_alice, 1999)]));
    assert!(refused(None, None, vec![(pair(), good_pool)], vec![]));
    assert!(refused(None, None, vec![], vec![(at_alice, 1)]));
    assert!(!refused(None, None, vec![], vec![(at_alice, 0)]));
    assert!(refused(
        None,
        None,
        vec![(pair(), PoolInfo { token_a_reserve: i128::MAX, token_b_reserve: i128::MAX, total_shares: i128::MAX })],
        vec![(at_alice, i128::MAX), (at_bob, 1)]
    ));
}

#[test]
fn new_balance_record_is_empty() {
    let balance = UserBalance::new();
    assert!(balance.pool_shares().is_empty());
    assert!(balance.deposits().is_empty());
    assert_eq!(balance.shares_of(&pair()), 0);
    assert_eq!(balance.deposit_of(&token_y()), 0);
}

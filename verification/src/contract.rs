//! The exchange: the store of pools and holdings, and the operations on it.

use vstd::prelude::*;
use crate::address::{Address, DataKey, PoolKey, Position};
use crate::assoc::{
    as_map,
    distinct_keys,
    find,
    has_key,
    keys_distinct,
    lemma_empty,
    lemma_entry_in_map,
    position_of,
    store,
    Key,
};
use crate::balance::UserBalance;
use crate::error::ContractError;
use crate::pool::{PoolInfo, DEFAULT_FEE, MAX_FEE};
use crate::state::{
    holdings_of,
    lemma_add_liquidity_keeps_wf,
    lemma_holding_within_total,
    lemma_holdings_of_is_shares_by_pool,
    lemma_initialize_keeps_wf,
    lemma_remove_liquidity_keeps_wf,
    lemma_set_fee_keeps_wf,
    lemma_shares_within_total,
    lemma_swap_keeps_wf,
    lemma_total_held_zero,
    pool_in,
    total_held,
    State,
};

verus! {

/// The exchange. It holds the administrator and the fee, the pool of each
/// token pair and the shares of each principal, and is well formed at all
/// times.
pub struct SwapContract {
    admin: Option<Address>,
    fee: Option<u32>,
    pools: Vec<(PoolKey, PoolInfo)>,
    holdings: Vec<(Position, i128)>,
}

impl View for SwapContract {
    type V = State;

    closed spec fn view(&self) -> State {
        State {
            admin: self.admin,
            fee: self.fee,
            pools: as_map(self.pools@),
            holdings: self.holdings@,
        }
    }
}

/// Sets administrator and fee in one step.
fn configure(admin: &mut Option<Address>, fee: &mut Option<u32>, to_admin: Address, to_fee: u32)
    ensures
        *final(admin) == Some(to_admin),
        *final(fee) == Some(to_fee),
    no_unwind
{
    *admin = Some(to_admin);
    *fee = Some(to_fee);
}

/// A copy of the entries.
fn copy_entries<K: Copy, V: Copy>(entries: &Vec<(K, V)>) -> (copy: Vec<(K, V)>)
    ensures
        copy@ == entries@,
{
    let mut copy: Vec<(K, V)> = Vec::new();
    let mut i: usize = 0;
    while i < entries.len()
        invariant
            i <= entries.len(),
            copy@ == entries@.take(i as int),
        decreases entries.len() - i,
    {
        copy.push(entries[i]);
        proof {
            assert(entries@.take(i as int).push(entries@[i as int]) =~= entries@.take(i + 1));
        }
        i += 1;
    }
    proof {
        assert(entries@.take(entries.len() as int) =~= entries@);
    }
    copy
}

/// Whether every pool is well formed and pairs two different tokens.
fn pools_valid(pools: &Vec<(PoolKey, PoolInfo)>) -> (ok: bool)
    ensures
        ok == forall|i: int|
            0 <= i < pools.len() ==> (#[trigger] pools@[i]).1.wf() && pools@[i].0.token_a
                != pools@[i].0.token_b,
{
    let mut i: usize = 0;
    while i < pools.len()
        invariant
            i <= pools.len(),
            forall|k: int|
                0 <= k < i ==> (#[trigger] pools@[k]).1.wf() && pools@[k].0.token_a
                    != pools@[k].0.token_b,
        decreases pools.len() - i,
    {
        let entry = pools[i];
        if !entry.1.is_wf() || entry.0.token_a.same(&entry.0.token_b) {
            return false;
        }
        i += 1;
    }
    true
}

/// Whether no holding is negative.
fn holdings_nonnegative(holdings: &Vec<(Position, i128)>) -> (ok: bool)
    ensures
        ok == forall|i: int| 0 <= i < holdings.len() ==> (#[trigger] holdings@[i]).1 >= 0,
{
    let mut i: usize = 0;
    while i < holdings.len()
        invariant
            i <= holdings.len(),
            forall|k: int| 0 <= k < i ==> (#[trigger] holdings@[k]).1 >= 0,
        decreases holdings.len() - i,
    {
        if holdings[i].1 < 0 {
            return false;
        }
        i += 1;
    }
    true
}

/// The shares of the pool of `key` that the holdings record, where the sum
/// fits the machine type.
fn held_in(holdings: &Vec<(Position, i128)>, key: &PoolKey) -> (sum: Option<i128>)
    requires
        forall|i: int| 0 <= i < holdings.len() ==> (#[trigger] holdings@[i]).1 >= 0,
    ensures
        sum is Some <==> total_held(holdings@, *key) <= i128::MAX,
        sum is Some ==> sum->Some_0 == total_held(holdings@, *key),
{
    let mut sum: i128 = 0;
    let mut i: usize = 0;
    while i < holdings.len()
        invariant
            i <= holdings.len(),
            forall|k: int| 0 <= k < holdings.len() ==> (#[trigger] holdings@[k]).1 >= 0,
            0 <= sum,
            sum == total_held(holdings@.take(i as int), *key),
        decreases holdings.len() - i,
    {
        let entry = holdings[i];
        proof {
            assert(holdings@.take(i + 1).drop_last() =~= holdings@.take(i as int));
        }
        if entry.0.pool.same(key) {
            match sum.checked_add(entry.1) {
                Some(next) => {
                    sum = next;
                },
                None => {
                    proof {
                        lemma_total_held_grows(holdings@, i + 1, *key);
                    }
                    return None;
                },
            }
        }
        i += 1;
    }
    proof {
        assert(holdings@.take(holdings.len() as int) =~= holdings@);
    }
    Some(sum)
}

/// Where no holding is negative, the shares held of a pool over the first
/// `n` holdings do not exceed those over all.
proof fn lemma_total_held_grows(holdings: Seq<(Position, i128)>, n: int, pool: PoolKey)
    requires
        forall|k: int| 0 <= k < holdings.len() ==> (#[trigger] holdings[k]).1 >= 0,
        0 <= n <= holdings.len(),
    ensures
        total_held(holdings.take(n), pool) <= total_held(holdings, pool),
    decreases holdings.len() - n,
{
    if n == holdings.len() {
        assert(holdings.take(n) =~= holdings);
    } else {
        lemma_total_held_grows(holdings, n + 1, pool);
        assert(holdings.take(n + 1).drop_last() =~= holdings.take(n));
    }
}

/// Whether the holdings of every pool add up to the shares that `pools`
/// records as issued.
fn holdings_match(pools: &Vec<(PoolKey, PoolInfo)>, holdings: &Vec<(Position, i128)>) -> (ok: bool)
    requires
        distinct_keys(pools@),
        forall|i: int| 0 <= i < holdings.len() ==> (#[trigger] holdings@[i]).1 >= 0,
    ensures
        ok == forall|key: PoolKey| #[trigger]
            total_held(holdings@, key) == pool_in(as_map(pools@), key).total_shares,
{
    let mut i: usize = 0;
    while i < pools.len()
        invariant
            i <= pools.len(),
            distinct_keys(pools@),
            forall|k: int| 0 <= k < holdings.len() ==> (#[trigger] holdings@[k]).1 >= 0,
            forall|k: int|
                0 <= k < i ==> total_held(holdings@, (#[trigger] pools@[k]).0)
                    == pools@[k].1.total_shares,
        decreases pools.len() - i,
    {
        let entry = pools[i];
        proof {
            lemma_entry_in_map(pools@, i as int);
        }
        let agrees = match held_in(holdings, &entry.0) {
            Some(sum) => sum == entry.1.total_shares,
            None => false,
        };
        if !agrees {
            assert(total_held(holdings@, entry.0) != pool_in(
                as_map(pools@),
                entry.0,
            ).total_shares);
            return false;
        }
        i += 1;
    }
    let mut j: usize = 0;
    while j < holdings.len()
        invariant
            j <= holdings.len(),
            distinct_keys(pools@),
            forall|k: int| 0 <= k < holdings.len() ==> (#[trigger] holdings@[k]).1 >= 0,
            forall|k: int|
                0 <= k < j ==> (#[trigger] holdings@[k]).1 == 0 || has_key(
                    pools@,
                    holdings@[k].0.pool,
                ),
        decreases holdings.len() - j,
    {
        let entry = holdings[j];
        if entry.1 != 0 && find(pools, &entry.0.pool).is_none() {
            proof {
                lemma_holding_within_total(holdings@, j as int);
                assert(total_held(holdings@, entry.0.pool) != pool_in(
                    as_map(pools@),
                    entry.0.pool,
                ).total_shares);
            }
            return false;
        }
        j += 1;
    }
    proof {
        assert forall|key: PoolKey| #[trigger]
            total_held(holdings@, key) == pool_in(as_map(pools@), key).total_shares by {
            if has_key(pools@, key) {
                let k = position_of(pools@, key);
                lemma_entry_in_map(pools@, k);
            } else {
                lemma_total_held_zero(holdings@, key);
            }
        }
    }
    true
}

impl SwapContract {
    #[verifier::type_invariant]
    spec fn inv(&self) -> bool {
        distinct_keys(self.pools@) && self@.wf()
    }

    /// The exchange before anything has happened: not initialized, without
    /// pools or holdings.
    pub fn new() -> (contract: SwapContract)
        ensures
            contract@ == State::initial(),
            contract@.wf(),
    {
        proof {
            lemma_empty::<PoolKey, PoolInfo>();
            lemma_empty::<Position, i128>();
            assert forall|key: PoolKey| #[trigger]
                crate::state::total_held(Seq::<(Position, i128)>::empty(), key) == 0 by {}
        }
        SwapContract { admin: None, fee: None, pools: Vec::new(), holdings: Vec::new() }
    }

    /// The exchange with the given records, where they make a well-formed
    /// state with each pair recorded once; nothing otherwise.
    pub fn restore(
        admin: Option<Address>,
        fee: Option<u32>,
        pools: Vec<(PoolKey, PoolInfo)>,
        holdings: Vec<(Position, i128)>,
    ) -> (res: Option<SwapContract>)
        ensures
            res is Some <==> distinct_keys(pools@) && (State {
                admin,
                fee,
                pools: as_map(pools@),
                holdings: holdings@,
            }).wf(),
            res is Some ==> res->Some_0@ == (State {
                admin,
                fee,
                pools: as_map(pools@),
                holdings: holdings@,
            }),
    {
        let ghost state = State { admin, fee, pools: as_map(pools@), holdings: holdings@ };
        if admin.is_some() != fee.is_some() {
            return None;
        }
        match fee {
            Some(bps) => {
                if bps > MAX_FEE {
                    return None;
                }
            },
            None => {},
        }
        if !keys_distinct(&pools) {
            return None;
        }
        if !pools_valid(&pools) {
            proof {
                let i = choose|i: int|
                    0 <= i < pools.len() && !((#[trigger] pools@[i]).1.wf() && pools@[i].0.token_a
                        != pools@[i].0.token_b);
                lemma_entry_in_map(pools@, i);
                assert(state.pools.contains_key(pools@[i].0));
            }
            return None;
        }
        if !keys_distinct(&holdings) {
            return None;
        }
        if !holdings_nonnegative(&holdings) {
            return None;
        }
        if !holdings_match(&pools, &holdings) {
            return None;
        }
        proof {
            assert forall|key: PoolKey| #[trigger] state.pools.contains_key(key) implies state.pools[key].wf()
                && key.token_a != key.token_b by {
                let i = position_of(pools@, key);
                lemma_entry_in_map(pools@, i);
            }
        }
        Some(SwapContract { admin, fee, pools, holdings })
    }

    /// Sets the administrator and the default fee. It succeeds once: with
    /// the administrator set it fails and changes nothing.
    pub fn initialize(&mut self, admin: Address) -> (res: Result<(), ContractError>)
        ensures
            (res, final(self)@) == old(self)@.initialize(admin),
            final(self)@.wf(),
    {
        proof {
            use_type_invariant(&*self);
            lemma_initialize_keeps_wf(self@, admin);
        }
        if self.admin.is_some() {
            return Err(ContractError::AlreadyInitialized);
        }
        configure(&mut self.admin, &mut self.fee, admin, DEFAULT_FEE);
        Ok(())
    }

    /// Sets the fee, in basis points, for the swaps that follow. Only the
    /// administrator may do so, and up to the cap.
    ///
    /// `authorized` is whether the host has authorized this call for
    /// `principal`. It fails, in this order and changing nothing:
    /// `Unauthorized` without the authorization or where `principal` is not
    /// the administrator; `FeeTooHigh` where the fee is above the cap.
    pub fn set_fee(&mut self, new_fee: u32, principal: Address, authorized: bool) -> (res: Result<
        (),
        ContractError,
    >)
        ensures
            (res, final(self)@) == old(self)@.set_fee(new_fee, principal, authorized),
            final(self)@.wf(),
    {
        proof {
            use_type_invariant(&*self);
            lemma_set_fee_keeps_wf(self@, new_fee, principal, authorized);
        }
        if !authorized {
            return Err(ContractError::Unauthorized);
        }
        match self.admin {
            Some(admin) => {
                if !admin.same(&principal) {
                    return Err(ContractError::Unauthorized);
                }
            },
            None => {
                return Err(ContractError::Unauthorized);
            },
        }
        if new_fee > MAX_FEE {
            return Err(ContractError::FeeTooHigh);
        }
        self.fee = Some(new_fee);
        Ok(())
    }

    /// The record of the pool of the pair: the empty record where none is
    /// kept.
    pub fn get_pool_info(&self, token_a: Address, token_b: Address) -> (pool: PoolInfo)
        ensures
            pool == self@.pool(PoolKey { token_a, token_b }),
            pool.wf(),
            self@.wf(),
    {
        proof {
            use_type_invariant(self);
        }
        let key = PoolKey::new(token_a, token_b);
        match find(&self.pools, &key) {
            Some(i) => {
                proof {
                    lemma_entry_in_map(self.pools@, i as int);
                    assert(self@.pools.contains_key(key));
                }
                self.pools[i].1
            },
            None => PoolInfo::empty(),
        }
    }

    /// The administrator, once initialized.
    pub fn admin(&self) -> (admin: Option<Address>)
        ensures
            admin == self@.admin,
    {
        self.admin
    }

    /// The swap fee in basis points, once initialized.
    pub fn fee(&self) -> (fee: Option<u32>)
        ensures
            fee == self@.fee,
            self@.wf(),
    {
        proof {
            use_type_invariant(self);
        }
        self.fee
    }

    /// Whether the store holds an entry under `key`: the administrator and
    /// the fee once initialized, a pool once it has received a deposit, a
    /// balance record once the principal has deposited.
    pub fn has(&self, key: &DataKey) -> (present: bool)
        ensures
            present == self@.has(*key),
    {
        proof {
            use_type_invariant(self);
        }
        match key {
            DataKey::Admin => self.admin.is_some(),
            DataKey::SwapFee => self.fee.is_some(),
            DataKey::LiquidityPool(token_a, token_b) => {
                let pool_key = PoolKey::new(*token_a, *token_b);
                find(&self.pools, &pool_key).is_some()
            },
            DataKey::UserBalance(principal) => self.knows(*principal),
        }
    }

    /// Whether a balance record is kept for `principal`.
    fn knows(&self, principal: Address) -> (known: bool)
        ensures
            known == self@.knows(principal),
    {
        let mut i: usize = 0;
        while i < self.holdings.len()
            invariant
                i <= self.holdings.len(),
                forall|j: int| 0 <= j < i ==> (#[trigger] self.holdings@[j]).0.holder != principal,
            decreases self.holdings.len() - i,
        {
            if self.holdings[i].0.holder.same(&principal) {
                proof {
                    let at = self.holdings@[i as int].0;
                    assert(has_key(self@.holdings, Position { holder: principal, pool: at.pool }));
                }
                return true;
            }
            i += 1;
        }
        proof {
            assert forall|key: PoolKey|
                !has_key(self@.holdings, Position { holder: principal, pool: key }) by {
                let at = Position { holder: principal, pool: key };
                if has_key(self@.holdings, at) {
                    let j = position_of(self@.holdings, at);
                    assert(self.holdings@[j].0.holder == principal);
                }
            }
        }
        false
    }

    /// The holdings of `holder`, each as a pool and the shares held in it.
    fn shares_of_holder(&self, holder: Address) -> (own: Vec<(PoolKey, i128)>)
        ensures
            own@ == holdings_of(self@.holdings, holder),
            distinct_keys(own@),
            as_map(own@) == self@.shares_by_pool(holder),
    {
        proof {
            use_type_invariant(self);
        }
        let mut own: Vec<(PoolKey, i128)> = Vec::new();
        let mut i: usize = 0;
        while i < self.holdings.len()
            invariant
                i <= self.holdings.len(),
                own@ == holdings_of(self.holdings@.take(i as int), holder),
            decreases self.holdings.len() - i,
        {
            let entry = self.holdings[i];
            proof {
                assert(self.holdings@.take(i + 1).drop_last() =~= self.holdings@.take(i as int));
            }
            if entry.0.holder.same(&holder) {
                own.push((entry.0.pool, entry.1));
            }
            i += 1;
        }
        proof {
            assert(self.holdings@.take(self.holdings.len() as int) =~= self.holdings@);
            lemma_holdings_of_is_shares_by_pool(self@, holder);
        }
        own
    }

    /// The balance record of `user`: its shares by pool, and no deposits.
    /// A principal that has never deposited has an empty record.
    pub fn get_user_balance(&self, user: Address) -> (balance: UserBalance)
        ensures
            balance@.pool_shares == self@.shares_by_pool(user),
            balance@.deposits == Map::<Address, i128>::empty(),
    {
        UserBalance::with_shares(self.shares_of_holder(user))
    }

    /// The pools as a list, each pair once.
    pub fn pools(&self) -> (entries: &Vec<(PoolKey, PoolInfo)>)
        ensures
            distinct_keys(entries@),
            as_map(entries@) == self@.pools,
    {
        proof {
            use_type_invariant(self);
        }
        &self.pools
    }

    /// The holdings as a list, each principal and pool once.
    pub fn holdings(&self) -> (entries: &Vec<(Position, i128)>)
        ensures
            entries@ == self@.holdings,
    {
        &self.holdings
    }

    /// The shares `holder` holds in the pool of `key`.
    fn shares_held(&self, holder: Address, key: PoolKey) -> (shares: i128)
        ensures
            shares == self@.shares(holder, key),
    {
        proof {
            use_type_invariant(self);
        }
        let at = Position { holder, pool: key };
        match find(&self.holdings, &at) {
            Some(i) => {
                proof {
                    lemma_entry_in_map(self.holdings@, i as int);
                }
                self.holdings[i].1
            },
            None => 0,
        }
    }

    /// Deposits `amount_a` of `token_a` and `amount_b` of `token_b` for
    /// `user` into the pool of the pair, which is created with the first
    /// deposit, and returns the shares issued for it.
    ///
    /// `authorized` is whether the host has authorized this call for `user`;
    /// `funds_a` and `funds_b` are what `user` holds of the two tokens. On
    /// success the caller moves both amounts from `user` into custody.
    ///
    /// It fails, in this order and changing nothing: `Unauthorized` without
    /// the authorization; `PoolNotFound` where the two tokens are one;
    /// `InvalidAmount` unless both amounts are positive;
    /// `InsufficientBalance` where `user` holds less than an amount;
    /// `TransferFailed` where a reserve cannot hold its amount;
    /// `InsufficientShares` where the deposit would be issued no share.
    pub fn add_liquidity(
        &mut self,
        token_a: Address,
        token_b: Address,
        amount_a: i128,
        amount_b: i128,
        user: Address,
        authorized: bool,
        funds_a: i128,
        funds_b: i128,
    ) -> (res: Result<i128, ContractError>)
        ensures
            (res, final(self)@) == old(self)@.add_liquidity(
                token_a,
                token_b,
                amount_a,
                amount_b,
                user,
                authorized,
                funds_a,
                funds_b,
            ),
            final(self)@.wf(),
    {
        proof {
            use_type_invariant(&*self);
            lemma_add_liquidity_keeps_wf(
                self@,
                token_a,
                token_b,
                amount_a,
                amount_b,
                user,
                authorized,
                funds_a,
                funds_b,
            );
        }
        if !authorized {
            return Err(ContractError::Unauthorized);
        }
        if token_a.same(&token_b) {
            return Err(ContractError::PoolNotFound);
        }
        if amount_a <= 0 || amount_b <= 0 {
            return Err(ContractError::InvalidAmount);
        }
        if funds_a < amount_a || funds_b < amount_b {
            return Err(ContractError::InsufficientBalance);
        }
        let key = PoolKey::new(token_a, token_b);
        let pool = self.get_pool_info(token_a, token_b);
        if pool.token_a_reserve > i128::MAX - amount_a || pool.token_b_reserve > i128::MAX
            - amount_b {
            return Err(ContractError::TransferFailed);
        }
        let shares = pool.quote_deposit(amount_a, amount_b);
        if shares == 0 {
            return Err(ContractError::InsufficientShares);
        }
        let held = self.shares_held(user, key);
        proof {
            lemma_shares_within_total(self@, user, key);
        }
        let mut pools = copy_entries(&self.pools);
        store(
            &mut pools,
            key,
            PoolInfo {
                token_a_reserve: pool.token_a_reserve + amount_a,
                token_b_reserve: pool.token_b_reserve + amount_b,
                total_shares: pool.total_shares + shares,
            },
        );
        let mut holdings = copy_entries(&self.holdings);
        store(&mut holdings, Position { holder: user, pool: key }, held + shares);
        *self = SwapContract { admin: self.admin, fee: self.fee, pools, holdings };
        Ok(shares)
    }

    /// Swaps `amount_in` of `token_in` for `token_out` in the pool of the
    /// pair, in this order, and returns what is paid out. The whole input
    /// enters the reserve; the fee is what the output is short of.
    ///
    /// `authorized` is whether the host has authorized this call for `user`;
    /// `funds_in` is what `user` holds of `token_in`, `custody_out` what
    /// custody holds of `token_out`. On success the caller moves the input
    /// from `user` into custody and the output from custody to `user`.
    ///
    /// It fails, in this order and changing nothing: `Unauthorized` without
    /// the authorization; `InvalidAmount` unless the input is positive;
    /// `PoolNotFound` where the pool is not recorded or holds nothing;
    /// `NotInitialized` where no fee is set; `InsufficientOutput` where the
    /// output is below `min_amount_out`; `InsufficientBalance` where `user`
    /// holds less than the input or custody less than the output;
    /// `TransferFailed` where the reserve cannot hold the input.
    pub fn swap(
        &mut self,
        token_in: Address,
        token_out: Address,
        amount_in: i128,
        min_amount_out: i128,
        user: Address,
        authorized: bool,
        funds_in: i128,
        custody_out: i128,
    ) -> (res: Result<i128, ContractError>)
        ensures
            (res, final(self)@) == old(self)@.swap(
                token_in,
                token_out,
                amount_in,
                min_amount_out,
                user,
                authorized,
                funds_in,
                custody_out,
            ),
            final(self)@.wf(),
    {
        proof {
            use_type_invariant(&*self);
            lemma_swap_keeps_wf(
                self@,
                token_in,
                token_out,
                amount_in,
                min_amount_out,
                user,
                authorized,
                funds_in,
                custody_out,
            );
        }
        if !authorized {
            return Err(ContractError::Unauthorized);
        }
        if amount_in <= 0 {
            return Err(ContractError::InvalidAmount);
        }
        let key = PoolKey::new(token_in, token_out);
        let pool = self.get_pool_info(token_in, token_out);
        if pool.token_a_reserve == 0 {
            return Err(ContractError::PoolNotFound);
        }
        let fee = match self.fee {
            Some(fee) => fee,
            None => {
                return Err(ContractError::NotInitialized);
            },
        };
        let amount_out = pool.quote_swap(amount_in, fee);
        if amount_out < min_amount_out {
            return Err(ContractError::InsufficientOutput);
        }
        if funds_in < amount_in || custody_out < amount_out {
            return Err(ContractError::InsufficientBalance);
        }
        if pool.token_a_reserve > i128::MAX - amount_in {
            return Err(ContractError::TransferFailed);
        }
        let mut pools = copy_entries(&self.pools);
        store(
            &mut pools,
            key,
            PoolInfo {
                token_a_reserve: pool.token_a_reserve + amount_in,
                token_b_reserve: pool.token_b_reserve - amount_out,
                total_shares: pool.total_shares,
            },
        );
        self.pools = pools;
        Ok(amount_out)
    }

    /// Burns `shares` of `user` in the pool of the pair and returns their
    /// worth of the two reserves.
    ///
    /// `authorized` is whether the host has authorized this call for `user`;
    /// `custody_a` and `custody_b` are what custody holds of the two tokens.
    /// On success the caller moves both amounts from custody to `user`.
    ///
    /// It fails, in this order and changing nothing: `Unauthorized` without
    /// the authorization; `PoolNotFound` where the pool is not recorded;
    /// `InsufficientShares` where `user` holds fewer shares; `PoolNotFound`
    /// where the pool has no shares issued, so that nothing divides by them;
    /// `InsufficientOutput` where the worth of the shares of either reserve
    /// is below its minimum; `InvalidAmount` where `shares` is negative;
    /// `InsufficientBalance` where custody holds less than an amount. No
    /// shares are returned nothing and change nothing.
    pub fn remove_liquidity(
        &mut self,
        token_a: Address,
        token_b: Address,
        shares: i128,
        min_amount_a: i128,
        min_amount_b: i128,
        user: Address,
        authorized: bool,
        custody_a: i128,
        custody_b: i128,
    ) -> (res: Result<(i128, i128), ContractError>)
        ensures
            (res, final(self)@) == old(self)@.remove_liquidity(
                token_a,
                token_b,
                shares,
                min_amount_a,
                min_amount_b,
                user,
                authorized,
                custody_a,
                custody_b,
            ),
            final(self)@.wf(),
    {
        proof {
            use_type_invariant(&*self);
            lemma_remove_liquidity_keeps_wf(
                self@,
                token_a,
                token_b,
                shares,
                min_amount_a,
                min_amount_b,
                user,
                authorized,
                custody_a,
                custody_b,
            );
        }
        if !authorized {
            return Err(ContractError::Unauthorized);
        }
        let key = PoolKey::new(token_a, token_b);
        if find(&self.pools, &key).is_none() {
            return Err(ContractError::PoolNotFound);
        }
        let pool = self.get_pool_info(token_a, token_b);
        let held = self.shares_held(user, key);
        if held < shares {
            return Err(ContractError::InsufficientShares);
        }
        if pool.total_shares == 0 {
            return Err(ContractError::PoolNotFound);
        }
        if pool.withdrawal_falls_short(shares, min_amount_a, min_amount_b) {
            return Err(ContractError::InsufficientOutput);
        }
        if shares < 0 {
            return Err(ContractError::InvalidAmount);
        }
        if shares == 0 {
            return Ok((0, 0));
        }
        proof {
            lemma_shares_within_total(self@, user, key);
        }
        let amounts = pool.quote_withdrawal(shares);
        if custody_a < amounts.0 || custody_b < amounts.1 {
            return Err(ContractError::InsufficientBalance);
        }
        let mut pools = copy_entries(&self.pools);
        store(
            &mut pools,
            key,
            PoolInfo {
                token_a_reserve: pool.token_a_reserve - amounts.0,
                token_b_reserve: pool.token_b_reserve - amounts.1,
                total_shares: pool.total_shares - shares,
            },
        );
        let mut holdings = copy_entries(&self.holdings);
        store(&mut holdings, Position { holder: user, pool: key }, held - shares);
        *self = SwapContract { admin: self.admin, fee: self.fee, pools, holdings };
        Ok(amounts)
    }
}

} // verus!

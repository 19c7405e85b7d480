//! The state of the exchange as a mathematical value, and each operation as a
//! function from a state and a call to a result and the next state.

use vstd::prelude::*;
use crate::address::{Address, DataKey, PoolKey, Position};
use crate::assoc::{as_map, distinct_keys, has_key, lemma_entry_in_map, lemma_put, position_of, put};
use crate::error::ContractError;
use crate::pool::{PoolInfo, DEFAULT_FEE, MAX_FEE};

verus! {

/// The shares of `pool` that the holdings record, over all holders.
pub open spec fn total_held(holdings: Seq<(Position, i128)>, pool: PoolKey) -> int
    decreases holdings.len(),
{
    if holdings.len() == 0 {
        0
    } else {
        total_held(holdings.drop_last(), pool) + counted(holdings.last(), pool)
    }
}

/// What one holding counts towards the shares of `pool`.
pub open spec fn counted(holding: (Position, i128), pool: PoolKey) -> int {
    if holding.0.pool == pool {
        holding.1 as int
    } else {
        0
    }
}

/// The record that `pools` keeps of the pool of `key`: the empty record
/// where it keeps none.
pub open spec fn pool_in(pools: Map<PoolKey, PoolInfo>, key: PoolKey) -> PoolInfo {
    if pools.contains_key(key) {
        pools[key]
    } else {
        PoolInfo::spec_empty()
    }
}

/// Everything the exchange records.
pub struct State {
    /// The administrator, once initialized.
    pub admin: Option<Address>,
    /// The swap fee in basis points, once initialized.
    pub fee: Option<u32>,
    /// The pool of each token pair that has received a deposit.
    pub pools: Map<PoolKey, PoolInfo>,
    /// The shares each principal holds in each pool, one entry for each
    /// principal and pool.
    pub holdings: Seq<(Position, i128)>,
}

impl State {
    /// The state before anything has happened.
    pub open spec fn initial() -> State {
        State { admin: None, fee: None, pools: Map::empty(), holdings: Seq::empty() }
    }

    /// The record of the pool of `key`: the empty record where none is kept.
    pub open spec fn pool(self, key: PoolKey) -> PoolInfo {
        pool_in(self.pools, key)
    }

    /// The shares `holder` holds in the pool of `key`.
    pub open spec fn shares(self, holder: Address, key: PoolKey) -> int {
        let at = Position { holder, pool: key };
        if has_key(self.holdings, at) {
            as_map(self.holdings)[at] as int
        } else {
            0
        }
    }

    /// The shares of `holder`, by pool.
    pub open spec fn shares_by_pool(self, holder: Address) -> Map<PoolKey, i128> {
        Map::new(
            |key: PoolKey| has_key(self.holdings, Position { holder, pool: key }),
            |key: PoolKey| as_map(self.holdings)[Position { holder, pool: key }],
        )
    }

    /// Whether a balance record is kept for `principal`.
    pub open spec fn knows(self, principal: Address) -> bool {
        exists|key: PoolKey| has_key(self.holdings, Position { holder: principal, pool: key })
    }

    /// Whether the store holds an entry under `key`.
    pub open spec fn has(self, key: DataKey) -> bool {
        match key {
            DataKey::Admin => self.admin is Some,
            DataKey::SwapFee => self.fee is Some,
            DataKey::LiquidityPool(token_a, token_b) => self.pools.contains_key(
                PoolKey { token_a, token_b },
            ),
            DataKey::UserBalance(principal) => self.knows(principal),
        }
    }

    /// The state is well formed: administrator and fee are set together, the
    /// fee is within its cap, every pool is well formed and pairs two
    /// different tokens, no holding is negative or recorded twice, and the
    /// holdings of each pool add up to the shares the pool has issued.
    pub open spec fn wf(self) -> bool {
        &&& self.admin is Some <==> self.fee is Some
        &&& self.fee is Some ==> self.fee->Some_0 <= MAX_FEE
        &&& forall|key: PoolKey| #[trigger]
            self.pools.contains_key(key) ==> self.pools[key].wf() && key.token_a != key.token_b
        &&& distinct_keys(self.holdings)
        &&& forall|i: int| 0 <= i < self.holdings.len() ==> (#[trigger] self.holdings[i]).1 >= 0
        &&& forall|key: PoolKey| #[trigger]
            total_held(self.holdings, key) == self.pool(key).total_shares
    }

    /// `initialize`: sets the administrator and the default fee, once.
    pub open spec fn initialize(self, admin: Address) -> (Result<(), ContractError>, State) {
        if self.admin is Some {
            (Err(ContractError::AlreadyInitialized), self)
        } else {
            (Ok(()), State { admin: Some(admin), fee: Some(DEFAULT_FEE), ..self })
        }
    }

    /// `set_fee`: the administrator, authorized by the host, sets a fee up to
    /// the cap.
    pub open spec fn set_fee(self, new_fee: u32, principal: Address, authorized: bool) -> (
        Result<(), ContractError>,
        State,
    ) {
        if !authorized || self.admin != Some(principal) {
            (Err(ContractError::Unauthorized), self)
        } else if new_fee > MAX_FEE {
            (Err(ContractError::FeeTooHigh), self)
        } else {
            (Ok(()), State { fee: Some(new_fee), ..self })
        }
    }

    /// `add_liquidity`: the principal, authorized by the host, deposits
    /// positive amounts it holds into the pool of the pair and is issued the
    /// shares.
    pub open spec fn add_liquidity(
        self,
        token_a: Address,
        token_b: Address,
        amount_a: i128,
        amount_b: i128,
        user: Address,
        authorized: bool,
        funds_a: i128,
        funds_b: i128,
    ) -> (Result<i128, ContractError>, State) {
        let key = PoolKey { token_a, token_b };
        let at = Position { holder: user, pool: key };
        let pool = self.pool(key);
        let shares = pool.shares_for(amount_a as int, amount_b as int);
        if !authorized {
            (Err(ContractError::Unauthorized), self)
        } else if token_a == token_b {
            (Err(ContractError::PoolNotFound), self)
        } else if amount_a <= 0 || amount_b <= 0 {
            (Err(ContractError::InvalidAmount), self)
        } else if funds_a < amount_a || funds_b < amount_b {
            (Err(ContractError::InsufficientBalance), self)
        } else if pool.token_a_reserve + amount_a > i128::MAX || pool.token_b_reserve + amount_b
            > i128::MAX {
            (Err(ContractError::TransferFailed), self)
        } else if shares <= 0 {
            (Err(ContractError::InsufficientShares), self)
        } else {
            (
                Ok(shares as i128),
                State {
                    pools: self.pools.insert(
                        key,
                        pool.after_deposit(amount_a as int, amount_b as int),
                    ),
                    holdings: put(self.holdings, at, (self.shares(user, key) + shares) as i128),
                    ..self
                },
            )
        }
    }

    /// `swap`: the principal, authorized by the host, pays a positive amount
    /// of the first token into a pool that has liquidity and is paid the
    /// second token by the constant-product rule at the fee that is set,
    /// unless that is less than it accepts.
    pub open spec fn swap(
        self,
        token_in: Address,
        token_out: Address,
        amount_in: i128,
        min_amount_out: i128,
        user: Address,
        authorized: bool,
        funds_in: i128,
        custody_out: i128,
    ) -> (Result<i128, ContractError>, State) {
        let key = PoolKey { token_a: token_in, token_b: token_out };
        let pool = self.pool(key);
        let fee = self.fee->Some_0 as int;
        let amount_out = pool.swap_pays(amount_in as int, fee);
        if !authorized {
            (Err(ContractError::Unauthorized), self)
        } else if amount_in <= 0 {
            (Err(ContractError::InvalidAmount), self)
        } else if pool.token_a_reserve == 0 {
            (Err(ContractError::PoolNotFound), self)
        } else if self.fee is None {
            (Err(ContractError::NotInitialized), self)
        } else if amount_out < min_amount_out {
            (Err(ContractError::InsufficientOutput), self)
        } else if funds_in < amount_in || custody_out < amount_out {
            (Err(ContractError::InsufficientBalance), self)
        } else if pool.token_a_reserve + amount_in > i128::MAX {
            (Err(ContractError::TransferFailed), self)
        } else {
            (
                Ok(amount_out as i128),
                State { pools: self.pools.insert(key, pool.after_swap(amount_in as int, fee)), ..self },
            )
        }
    }

    /// `remove_liquidity`: the principal, authorized by the host, burns shares
    /// it holds in a recorded pool and is returned their worth of both
    /// reserves, unless that is less than it accepts. The tests come in this
    /// order: authorization, the record of the pool, the shares held, the
    /// shares the pool has issued (a drained pool has nothing to divide),
    /// the minimums, the sign of the shares, what custody holds. No shares
    /// are worth nothing and change nothing.
    pub open spec fn remove_liquidity(
        self,
        token_a: Address,
        token_b: Address,
        shares: i128,
        min_amount_a: i128,
        min_amount_b: i128,
        user: Address,
        authorized: bool,
        custody_a: i128,
        custody_b: i128,
    ) -> (Result<(i128, i128), ContractError>, State) {
        let key = PoolKey { token_a, token_b };
        let at = Position { holder: user, pool: key };
        let pool = self.pool(key);
        let amounts = pool.payout(shares as int);
        if !authorized {
            (Err(ContractError::Unauthorized), self)
        } else if !self.pools.contains_key(key) {
            (Err(ContractError::PoolNotFound), self)
        } else if self.shares(user, key) < shares {
            (Err(ContractError::InsufficientShares), self)
        } else if pool.total_shares == 0 {
            (Err(ContractError::PoolNotFound), self)
        } else if amounts.0 < min_amount_a || amounts.1 < min_amount_b {
            (Err(ContractError::InsufficientOutput), self)
        } else if shares < 0 {
            (Err(ContractError::InvalidAmount), self)
        } else if shares == 0 {
            (Ok((0, 0)), self)
        } else if custody_a < amounts.0 || custody_b < amounts.1 {
            (Err(ContractError::InsufficientBalance), self)
        } else {
            (
                Ok((amounts.0 as i128, amounts.1 as i128)),
                State {
                    pools: self.pools.insert(key, pool.after_withdrawal(shares as int)),
                    holdings: put(self.holdings, at, (self.shares(user, key) - shares) as i128),
                    ..self
                },
            )
        }
    }
}

/// Recording `value` at `at` changes the shares held of the pool of `at` by
/// the difference to what was recorded there, and those of no other pool.
pub proof fn lemma_total_held_put(
    holdings: Seq<(Position, i128)>,
    at: Position,
    value: i128,
    pool: PoolKey,
)
    requires
        distinct_keys(holdings),
    ensures
        total_held(put(holdings, at, value), pool) == total_held(holdings, pool) + counted(
            (at, value),
            pool,
        ) - if has_key(holdings, at) {
            counted((at, as_map(holdings)[at]), pool)
        } else {
            0
        },
{
    if has_key(holdings, at) {
        let p = position_of(holdings, at);
        lemma_entry_in_map(holdings, p);
        lemma_total_held_update(holdings, p, (at, value), pool);
    } else {
        assert(holdings.push((at, value)).drop_last() =~= holdings);
    }
}

/// Replacing one holding changes the shares held by the difference of what
/// the two count.
proof fn lemma_total_held_update(
    holdings: Seq<(Position, i128)>,
    i: int,
    holding: (Position, i128),
    pool: PoolKey,
)
    requires
        0 <= i < holdings.len(),
    ensures
        total_held(holdings.update(i, holding), pool) == total_held(holdings, pool) + counted(
            holding,
            pool,
        ) - counted(holdings[i], pool),
    decreases holdings.len(),
{
    let after = holdings.update(i, holding);
    if i == holdings.len() - 1 {
        assert(after.drop_last() =~= holdings.drop_last());
    } else {
        assert(after.drop_last() =~= holdings.drop_last().update(i, holding));
        lemma_total_held_update(holdings.drop_last(), i, holding, pool);
    }
}

/// Where no holding is negative, none exceeds the shares held of its pool.
pub proof fn lemma_holding_within_total(holdings: Seq<(Position, i128)>, i: int)
    requires
        forall|j: int| 0 <= j < holdings.len() ==> (#[trigger] holdings[j]).1 >= 0,
        0 <= i < holdings.len(),
    ensures
        holdings[i].1 <= total_held(holdings, holdings[i].0.pool),
        total_held(holdings, holdings[i].0.pool) >= 0,
    decreases holdings.len(),
{
    let pool = holdings[i].0.pool;
    lemma_total_held_nonnegative(holdings.drop_last(), pool);
    if i < holdings.len() - 1 {
        lemma_holding_within_total(holdings.drop_last(), i);
    }
}

/// Where no holding is negative, the shares held of a pool are not negative.
pub proof fn lemma_total_held_nonnegative(holdings: Seq<(Position, i128)>, pool: PoolKey)
    requires
        forall|j: int| 0 <= j < holdings.len() ==> (#[trigger] holdings[j]).1 >= 0,
    ensures
        total_held(holdings, pool) >= 0,
    decreases holdings.len(),
{
    if holdings.len() > 0 {
        lemma_total_held_nonnegative(holdings.drop_last(), pool);
    }
}

/// In a well-formed state, what a principal holds in a pool is within the
/// shares the pool has issued.
pub proof fn lemma_shares_within_total(state: State, holder: Address, key: PoolKey)
    requires
        state.wf(),
    ensures
        0 <= state.shares(holder, key) <= state.pool(key).total_shares,
{
    let at = Position { holder, pool: key };
    assert(total_held(state.holdings, key) == state.pool(key).total_shares);
    if has_key(state.holdings, at) {
        let p = position_of(state.holdings, at);
        lemma_entry_in_map(state.holdings, p);
        lemma_holding_within_total(state.holdings, p);
    } else {
        lemma_total_held_nonnegative(state.holdings, key);
    }
}

/// Recording a value that is not negative, in place of a holding or as a new
/// one, leaves a well-formed list of holdings well formed.
pub proof fn lemma_put_holding(holdings: Seq<(Position, i128)>, at: Position, value: i128)
    requires
        distinct_keys(holdings),
        forall|j: int| 0 <= j < holdings.len() ==> (#[trigger] holdings[j]).1 >= 0,
        value >= 0,
    ensures
        distinct_keys(put(holdings, at, value)),
        forall|j: int|
            0 <= j < put(holdings, at, value).len() ==> (#[trigger] put(holdings, at, value)[j]).1
                >= 0,
{
    lemma_put(holdings, at, value);
    let after = put(holdings, at, value);
    assert forall|j: int| 0 <= j < after.len() implies (#[trigger] after[j]).1 >= 0 by {
        if has_key(holdings, at) {
            if j != position_of(holdings, at) {
                assert(holdings[j].1 >= 0);
            }
        } else {
            if j < holdings.len() {
                assert(holdings[j].1 >= 0);
            }
        }
    }
}

/// Initialization leaves a well-formed state well formed.
pub proof fn lemma_initialize_keeps_wf(state: State, admin: Address)
    requires
        state.wf(),
    ensures
        state.initialize(admin).1.wf(),
{
    let next = state.initialize(admin).1;
    assert forall|key: PoolKey| #[trigger]
        total_held(next.holdings, key) == next.pool(key).total_shares by {
        assert(total_held(state.holdings, key) == state.pool(key).total_shares);
    }
}

/// Setting the fee leaves a well-formed state well formed.
pub proof fn lemma_set_fee_keeps_wf(state: State, new_fee: u32, principal: Address, authorized: bool)
    requires
        state.wf(),
    ensures
        state.set_fee(new_fee, principal, authorized).1.wf(),
{
    let next = state.set_fee(new_fee, principal, authorized).1;
    assert forall|key: PoolKey| #[trigger]
        total_held(next.holdings, key) == next.pool(key).total_shares by {
        assert(total_held(state.holdings, key) == state.pool(key).total_shares);
    }
}

/// A deposit leaves a well-formed state well formed: the shares it issues
/// are added to the pool and to the depositor alike.
pub proof fn lemma_add_liquidity_keeps_wf(
    state: State,
    token_a: Address,
    token_b: Address,
    amount_a: i128,
    amount_b: i128,
    user: Address,
    authorized: bool,
    funds_a: i128,
    funds_b: i128,
)
    requires
        state.wf(),
    ensures
        state.add_liquidity(
            token_a,
            token_b,
            amount_a,
            amount_b,
            user,
            authorized,
            funds_a,
            funds_b,
        ).1.wf(),
{
    let step = state.add_liquidity(
        token_a,
        token_b,
        amount_a,
        amount_b,
        user,
        authorized,
        funds_a,
        funds_b,
    );
    if step.0 is Ok {
        let next = step.1;
        let key = PoolKey { token_a, token_b };
        let at = Position { holder: user, pool: key };
        let pool = state.pool(key);
        let shares = pool.shares_for(amount_a as int, amount_b as int);
        let held = state.shares(user, key);
        assert(pool.wf());
        crate::pool::lemma_deposit_keeps_wf(pool, amount_a as int, amount_b as int);
        lemma_shares_within_total(state, user, key);
        let value = (held + shares) as i128;
        lemma_put_holding(state.holdings, at, value);
        assert forall|k: PoolKey| #[trigger]
            total_held(next.holdings, k) == next.pool(k).total_shares by {
            assert(total_held(state.holdings, k) == state.pool(k).total_shares);
            lemma_total_held_put(state.holdings, at, value, k);
        }
    }
}

/// A swap leaves a well-formed state well formed.
pub proof fn lemma_swap_keeps_wf(
    state: State,
    token_in: Address,
    token_out: Address,
    amount_in: i128,
    min_amount_out: i128,
    user: Address,
    authorized: bool,
    funds_in: i128,
    custody_out: i128,
)
    requires
        state.wf(),
    ensures
        state.swap(
            token_in,
            token_out,
            amount_in,
            min_amount_out,
            user,
            authorized,
            funds_in,
            custody_out,
        ).1.wf(),
{
    let step = state.swap(
        token_in,
        token_out,
        amount_in,
        min_amount_out,
        user,
        authorized,
        funds_in,
        custody_out,
    );
    if step.0 is Ok {
        let next = step.1;
        let key = PoolKey { token_a: token_in, token_b: token_out };
        let pool = state.pool(key);
        assert(state.pools.contains_key(key));
        assert(pool.wf());
        crate::pool::lemma_swap_keeps_wf(pool, amount_in as int, state.fee->Some_0 as int);
        assert forall|k: PoolKey| #[trigger]
            total_held(next.holdings, k) == next.pool(k).total_shares by {
            assert(total_held(state.holdings, k) == state.pool(k).total_shares);
        }
    }
}

/// A withdrawal leaves a well-formed state well formed: the shares it burns
/// are taken off the pool and off the holder alike.
pub proof fn lemma_remove_liquidity_keeps_wf(
    state: State,
    token_a: Address,
    token_b: Address,
    shares: i128,
    min_amount_a: i128,
    min_amount_b: i128,
    user: Address,
    authorized: bool,
    custody_a: i128,
    custody_b: i128,
)
    requires
        state.wf(),
    ensures
        state.remove_liquidity(
            token_a,
            token_b,
            shares,
            min_amount_a,
            min_amount_b,
            user,
            authorized,
            custody_a,
            custody_b,
        ).1.wf(),
{
    let step = state.remove_liquidity(
        token_a,
        token_b,
        shares,
        min_amount_a,
        min_amount_b,
        user,
        authorized,
        custody_a,
        custody_b,
    );
    if step.0 is Ok && shares != 0 {
        let next = step.1;
        let key = PoolKey { token_a, token_b };
        let at = Position { holder: user, pool: key };
        let pool = state.pool(key);
        let held = state.shares(user, key);
        assert(pool.wf());
        lemma_shares_within_total(state, user, key);
        crate::pool::lemma_withdrawal_keeps_wf(pool, shares as int);
        let value = (held - shares) as i128;
        lemma_put_holding(state.holdings, at, value);
        assert forall|k: PoolKey| #[trigger]
            total_held(next.holdings, k) == next.pool(k).total_shares by {
            assert(total_held(state.holdings, k) == state.pool(k).total_shares);
            lemma_total_held_put(state.holdings, at, value, k);
        }
    }
}

/// The holdings of `holder`, each as a pool and the shares held in it, in
/// the order in which they are recorded.
pub open spec fn holdings_of(holdings: Seq<(Position, i128)>, holder: Address) -> Seq<
    (PoolKey, i128),
>
    decreases holdings.len(),
{
    if holdings.len() == 0 {
        Seq::empty()
    } else if holdings.last().0.holder == holder {
        holdings_of(holdings.drop_last(), holder).push((holdings.last().0.pool, holdings.last().1))
    } else {
        holdings_of(holdings.drop_last(), holder)
    }
}

/// The holdings of a principal name each pool once, and hold under a pool
/// what the holdings record for the principal in that pool.
pub proof fn lemma_holdings_of(holdings: Seq<(Position, i128)>, holder: Address)
    requires
        distinct_keys(holdings),
    ensures
        distinct_keys(holdings_of(holdings, holder)),
        forall|key: PoolKey|
            has_key(holdings_of(holdings, holder), key) <==> has_key(
                holdings,
                Position { holder, pool: key },
            ),
        forall|key: PoolKey|
            has_key(holdings, Position { holder, pool: key }) ==> as_map(
                holdings_of(holdings, holder),
            )[key] == as_map(holdings)[Position { holder, pool: key }],
    decreases holdings.len(),
{
    let own = holdings_of(holdings, holder);
    if holdings.len() == 0 {
        assert forall|key: PoolKey|
            has_key(holdings, Position { holder, pool: key }) implies as_map(own)[key] == as_map(
            holdings,
        )[Position { holder, pool: key }] by {
            assert(!has_key(holdings, Position { holder, pool: key }));
        }
    } else {
        let rest = holdings.drop_last();
        let last = holdings.last();
        let n = rest.len() as int;
        let own_rest = holdings_of(rest, holder);
        assert(distinct_keys(rest)) by {
            assert forall|i: int, j: int| 0 <= i < j < rest.len() implies (#[trigger] rest[i]).0 != (
            #[trigger] rest[j]).0 by {
                assert(holdings[i].0 != holdings[j].0);
            }
        }
        lemma_holdings_of(rest, holder);
        // what the whole list has is what the rest has, and the last entry
        assert forall|at: Position| has_key(holdings, at) <==> (has_key(rest, at) || last.0
            == at) by {
            if has_key(holdings, at) {
                let i = position_of(holdings, at);
                if i < n {
                    assert(rest[i].0 == at);
                }
            }
            if has_key(rest, at) {
                let i = position_of(rest, at);
                assert(holdings[i].0 == at);
            }
            if last.0 == at {
                assert(holdings[n].0 == at);
            }
        }
        assert(!has_key(rest, last.0)) by {
            if has_key(rest, last.0) {
                let i = position_of(rest, last.0);
                assert(holdings[i].0 != holdings[n].0);
            }
        }
        assert forall|at: Position| has_key(rest, at) implies as_map(holdings)[at] == as_map(
            rest,
        )[at] by {
            let i = position_of(rest, at);
            lemma_entry_in_map(rest, i);
            assert(holdings[i] == rest[i]);
            lemma_entry_in_map(holdings, i);
        }
        lemma_entry_in_map(holdings, n);
        if last.0.holder == holder {
            let key = last.0.pool;
            assert(last.0 == Position { holder, pool: key });
            assert(!has_key(own_rest, key));
            lemma_put(own_rest, key, last.1);
            assert(put(own_rest, key, last.1) == own);
            assert forall|k: PoolKey|
                has_key(own, k) <==> has_key(holdings, Position { holder, pool: k }) by {
                assert(as_map(own).contains_key(k) == has_key(own, k));
                assert(as_map(own_rest).contains_key(k) == has_key(own_rest, k));
            }
            assert forall|k: PoolKey|
                has_key(holdings, Position { holder, pool: k }) implies as_map(own)[k] == as_map(
                holdings,
            )[Position { holder, pool: k }] by {
                if k != key {
                    assert(has_key(rest, Position { holder, pool: k }));
                }
            }
        } else {
            assert forall|k: PoolKey|
                has_key(own, k) <==> has_key(holdings, Position { holder, pool: k }) by {
                assert(last.0 != Position { holder, pool: k });
            }
            assert forall|k: PoolKey|
                has_key(holdings, Position { holder, pool: k }) implies as_map(own)[k] == as_map(
                holdings,
            )[Position { holder, pool: k }] by {
                assert(last.0 != Position { holder, pool: k });
                assert(has_key(rest, Position { holder, pool: k }));
            }
        }
    }
}

/// The holdings of a principal, read as a map, are its shares by pool.
pub proof fn lemma_holdings_of_is_shares_by_pool(state: State, holder: Address)
    requires
        distinct_keys(state.holdings),
    ensures
        distinct_keys(holdings_of(state.holdings, holder)),
        as_map(holdings_of(state.holdings, holder)) == state.shares_by_pool(holder),
{
    lemma_holdings_of(state.holdings, holder);
    let own = holdings_of(state.holdings, holder);
    assert(as_map(own) =~= state.shares_by_pool(holder));
}

/// The state before anything has happened is well formed.
pub proof fn lemma_initial_wf()
    ensures
        State::initial().wf(),
{
    assert forall|key: PoolKey| #[trigger]
        total_held(State::initial().holdings, key) == State::initial().pool(key).total_shares by {}
}

/// Shares are conserved: in a well-formed state, what all principals hold
/// of a pool adds up to the shares the pool has issued. The first state is
/// well formed and every operation keeps a state so, hence this holds at
/// all times.
pub proof fn lemma_shares_conserved(state: State, key: PoolKey)
    requires
        state.wf(),
    ensures
        total_held(state.holdings, key) == state.pool(key).total_shares,
{
}

/// Initialization happens once: whatever the first call did, a second one
/// fails as already initialized and leaves administrator and fee, and all
/// else, as they were.
pub proof fn lemma_initialize_once(state: State, first: Address, second: Address)
    ensures
        state.initialize(first).1.initialize(second) == (
            Err::<(), ContractError>(ContractError::AlreadyInitialized),
            state.initialize(first).1,
        ),
{
}

/// A swap that succeeds adds the whole input to the reserve it pays into,
/// takes the output off the reserve it pays from, leaves every other pool
/// and all holdings alone, and does not lower the product of the reserves.
pub proof fn lemma_swap_conserves(
    state: State,
    token_in: Address,
    token_out: Address,
    amount_in: i128,
    min_amount_out: i128,
    user: Address,
    authorized: bool,
    funds_in: i128,
    custody_out: i128,
)
    requires
        state.wf(),
        state.swap(
            token_in,
            token_out,
            amount_in,
            min_amount_out,
            user,
            authorized,
            funds_in,
            custody_out,
        ).0 is Ok,
    ensures
        ({
            let key = PoolKey { token_a: token_in, token_b: token_out };
            let step = state.swap(
                token_in,
                token_out,
                amount_in,
                min_amount_out,
                user,
                authorized,
                funds_in,
                custody_out,
            );
            let amount_out = step.0->Ok_0;
            let before = state.pool(key);
            let after = step.1.pool(key);
            &&& 0 <= amount_out < before.token_b_reserve
            &&& after.token_a_reserve == before.token_a_reserve + amount_in
            &&& after.token_b_reserve == before.token_b_reserve - amount_out
            &&& after.total_shares == before.total_shares
            &&& after.token_a_reserve * after.token_b_reserve >= before.token_a_reserve
                * before.token_b_reserve
            &&& forall|other: PoolKey| other != key ==> step.1.pool(other) == state.pool(other)
            &&& step.1.holdings == state.holdings
        }),
{
    let key = PoolKey { token_a: token_in, token_b: token_out };
    let pool = state.pool(key);
    assert(state.pools.contains_key(key));
    assert(pool.wf());
    crate::pool::lemma_swap_keeps_wf(pool, amount_in as int, state.fee->Some_0 as int);
}

/// Depositing and at once withdrawing the shares that were issued returns no
/// more of either token than was deposited: with the host's authorization
/// and no minimum asked, the withdrawal pays out the worth of those shares,
/// which is within the deposit, or fails because custody does not cover it.
pub proof fn lemma_round_trip(
    state: State,
    token_a: Address,
    token_b: Address,
    amount_a: i128,
    amount_b: i128,
    user: Address,
    funds_a: i128,
    funds_b: i128,
    custody_a: i128,
    custody_b: i128,
)
    requires
        state.wf(),
        state.add_liquidity(token_a, token_b, amount_a, amount_b, user, true, funds_a, funds_b).0
            is Ok,
    ensures
        ({
            let deposit = state.add_liquidity(
                token_a,
                token_b,
                amount_a,
                amount_b,
                user,
                true,
                funds_a,
                funds_b,
            );
            let worth = deposit.1.pool(PoolKey { token_a, token_b }).payout(deposit.0->Ok_0 as int);
            let withdrawal = deposit.1.remove_liquidity(
                token_a,
                token_b,
                deposit.0->Ok_0,
                0,
                0,
                user,
                true,
                custody_a,
                custody_b,
            );
            &&& 0 <= worth.0 <= amount_a
            &&& 0 <= worth.1 <= amount_b
            &&& withdrawal.0 == if custody_a < worth.0 || custody_b < worth.1 {
                Err::<(i128, i128), ContractError>(ContractError::InsufficientBalance)
            } else {
                Ok::<(i128, i128), ContractError>((worth.0 as i128, worth.1 as i128))
            }
        }),
{
    let key = PoolKey { token_a, token_b };
    let at = Position { holder: user, pool: key };
    let pool = state.pool(key);
    let deposit = state.add_liquidity(
        token_a,
        token_b,
        amount_a,
        amount_b,
        user,
        true,
        funds_a,
        funds_b,
    );
    let shares = deposit.0->Ok_0;
    let next = deposit.1;
    assert(pool.wf());
    lemma_add_liquidity_keeps_wf(
        state,
        token_a,
        token_b,
        amount_a,
        amount_b,
        user,
        true,
        funds_a,
        funds_b,
    );
    crate::pool::lemma_deposit_keeps_wf(pool, amount_a as int, amount_b as int);
    lemma_shares_within_total(state, user, key);
    let value = (state.shares(user, key) + shares) as i128;
    lemma_put(state.holdings, at, value);
    assert(as_map(next.holdings).contains_key(at));
    assert(has_key(next.holdings, at));
    assert(next.shares(user, key) == value);
    let after = next.pool(key);
    assert(after == pool.after_deposit(amount_a as int, amount_b as int));
    lemma_shares_within_total(next, user, key);
    crate::pool::lemma_withdrawal_keeps_wf(after, shares as int);
    crate::pool::lemma_round_trip(pool, amount_a as int, amount_b as int);
}

/// Where every holding of a pool is zero, no shares of it are held.
pub proof fn lemma_total_held_zero(holdings: Seq<(Position, i128)>, pool: PoolKey)
    requires
        forall|j: int|
            0 <= j < holdings.len() && (#[trigger] holdings[j]).0.pool == pool ==> holdings[j].1
                == 0,
    ensures
        total_held(holdings, pool) == 0,
    decreases holdings.len(),
{
    if holdings.len() > 0 {
        let rest = holdings.drop_last();
        assert forall|j: int| 0 <= j < rest.len() && (#[trigger] rest[j]).0.pool == pool implies rest[j].1
            == 0 by {
            assert(holdings[j] == rest[j]);
        }
        lemma_total_held_zero(rest, pool);
        assert(holdings.last() == holdings[holdings.len() - 1]);
    }
}

} // verus!

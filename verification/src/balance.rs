//! The balance record of one principal, as the exchange reports it.

use vstd::prelude::*;
use crate::address::{Address, PoolKey};
use crate::assoc::{as_map, distinct_keys, find, lemma_empty, lemma_entry_in_map};

verus! {

/// What a balance record holds, as maps.
pub struct UserBalanceView {
    /// Deposited amounts, by token.
    pub deposits: Map<Address, i128>,
    /// Shares, by pool.
    pub pool_shares: Map<PoolKey, i128>,
}

/// The balance record of a principal: its deposits by token and its shares
/// by pool. In each list a key stands once.
pub struct UserBalance {
    deposits: Vec<(Address, i128)>,
    pool_shares: Vec<(PoolKey, i128)>,
}

impl View for UserBalance {
    type V = UserBalanceView;

    closed spec fn view(&self) -> UserBalanceView {
        UserBalanceView {
            deposits: as_map(self.deposits@),
            pool_shares: as_map(self.pool_shares@),
        }
    }
}

impl UserBalance {
    #[verifier::type_invariant]
    spec fn inv(&self) -> bool {
        distinct_keys(self.deposits@) && distinct_keys(self.pool_shares@)
    }

    /// The record of a principal that holds nothing.
    pub fn new() -> (balance: UserBalance)
        ensures
            balance@.deposits == Map::<Address, i128>::empty(),
            balance@.pool_shares == Map::<PoolKey, i128>::empty(),
    {
        proof {
            lemma_empty::<Address, i128>();
            lemma_empty::<PoolKey, i128>();
        }
        UserBalance { deposits: Vec::new(), pool_shares: Vec::new() }
    }

    /// The record with the given shares and no deposits.
    pub(crate) fn with_shares(pool_shares: Vec<(PoolKey, i128)>) -> (balance: UserBalance)
        requires
            distinct_keys(pool_shares@),
        ensures
            balance@.deposits == Map::<Address, i128>::empty(),
            balance@.pool_shares == as_map(pool_shares@),
    {
        proof {
            lemma_empty::<Address, i128>();
        }
        UserBalance { deposits: Vec::new(), pool_shares }
    }

    /// The shares held in the pool of `key`: none where the record names no
    /// such pool.
    pub fn shares_of(&self, key: &PoolKey) -> (shares: i128)
        ensures
            shares == if self@.pool_shares.contains_key(*key) {
                self@.pool_shares[*key]
            } else {
                0
            },
    {
        proof {
            use_type_invariant(self);
        }
        match find(&self.pool_shares, key) {
            Some(i) => {
                proof {
                    lemma_entry_in_map(self.pool_shares@, i as int);
                }
                self.pool_shares[i].1
            },
            None => 0,
        }
    }

    /// The deposit recorded of `token`: none where the record names no such
    /// token.
    pub fn deposit_of(&self, token: &Address) -> (amount: i128)
        ensures
            amount == if self@.deposits.contains_key(*token) {
                self@.deposits[*token]
            } else {
                0
            },
    {
        proof {
            use_type_invariant(self);
        }
        match find(&self.deposits, token) {
            Some(i) => {
                proof {
                    lemma_entry_in_map(self.deposits@, i as int);
                }
                self.deposits[i].1
            },
            None => 0,
        }
    }

    /// The shares as a list, each pool once.
    pub fn pool_shares(&self) -> (entries: &Vec<(PoolKey, i128)>)
        ensures
            distinct_keys(entries@),
            as_map(entries@) == self@.pool_shares,
    {
        proof {
            use_type_invariant(self);
        }
        &self.pool_shares
    }

    /// The deposits as a list, each token once.
    pub fn deposits(&self) -> (entries: &Vec<(Address, i128)>)
        ensures
            distinct_keys(entries@),
            as_map(entries@) == self@.deposits,
    {
        proof {
            use_type_invariant(self);
        }
        &self.deposits
    }
}

} // verus!

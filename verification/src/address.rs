//! Identifiers: principals and tokens, the pair that names a pool, the
//! position of a principal in a pool, and the keys of the persistent store.

use vstd::prelude::*;
use crate::assoc::Key;

verus! {

/// Whether an address names an account or a contract.
#[derive(Clone, Copy, Debug, PartialEq, Eq, Hash, Structural)]
pub enum AddressKind {
    /// An account, known by its public key.
    Account,
    /// A contract, known by the hash that identifies it.
    Contract,
}

/// A principal or a token: the kind of the address and the 256 bits that
/// identify it, as two halves. Two addresses are the same when all three
/// parts agree.
#[derive(Clone, Copy, Debug, PartialEq, Eq, Hash, Structural)]
pub struct Address {
    pub kind: AddressKind,
    pub high: u128,
    pub low: u128,
}

impl Address {
    /// The account with the given key.
    pub fn account(high: u128, low: u128) -> (a: Address)
        ensures
            a == (Address { kind: AddressKind::Account, high, low }),
    {
        Address { kind: AddressKind::Account, high, low }
    }

    /// The contract with the given hash.
    pub fn contract(high: u128, low: u128) -> (a: Address)
        ensures
            a == (Address { kind: AddressKind::Contract, high, low }),
    {
        Address { kind: AddressKind::Contract, high, low }
    }
}

impl Key for Address {
    fn same(&self, other: &Address) -> (r: bool) {
        self.kind == other.kind && self.high == other.high && self.low == other.low
    }
}

/// The pair of tokens that names a pool. The order counts: the pool of
/// `(x, y)` and the pool of `(y, x)` are two records.
#[derive(Clone, Copy, Debug, PartialEq, Eq, Hash, Structural)]
pub struct PoolKey {
    pub token_a: Address,
    pub token_b: Address,
}

impl PoolKey {
    /// The key of the pool of `token_a` and `token_b`, in this order.
    pub fn new(token_a: Address, token_b: Address) -> (k: PoolKey)
        ensures
            k == (PoolKey { token_a, token_b }),
    {
        PoolKey { token_a, token_b }
    }
}

impl Key for PoolKey {
    fn same(&self, other: &PoolKey) -> (r: bool) {
        self.token_a.same(&other.token_a) && self.token_b.same(&other.token_b)
    }
}

/// A principal's place in a pool: what its shares are recorded under.
#[derive(Clone, Copy, Debug, PartialEq, Eq, Hash, Structural)]
pub struct Position {
    pub holder: Address,
    pub pool: PoolKey,
}

impl Key for Position {
    fn same(&self, other: &Position) -> (r: bool) {
        self.holder.same(&other.holder) && self.pool.same(&other.pool)
    }
}

/// The keys of the persistent store.
#[derive(Clone, Copy, Debug, PartialEq, Eq, Hash, Structural)]
pub enum DataKey {
    /// The administrator.
    Admin,
    /// The pool of a token pair.
    LiquidityPool(Address, Address),
    /// The balance record of a principal.
    UserBalance(Address),
    /// The swap fee, in basis points.
    SwapFee,
}

} // verus!

//! A two-asset automated market maker: pooled reserves, proportional
//! ownership shares and constant-product swaps with a fee, with every
//! operation stated as a contract and proved.

pub mod address;
pub mod assoc;
pub mod balance;
pub mod contract;
pub mod error;
pub mod math;
pub mod payroll;
pub mod pool;
pub mod state;

pub use address::{Address, AddressKind, DataKey, PoolKey, Position};
pub use balance::{UserBalance, UserBalanceView};
pub use contract::SwapContract;
pub use error::ContractError;
pub use payroll::{BulkPayroll, Transfer};
pub use pool::PoolInfo;
pub use state::State;

//! An automated-market-maker exchange pool on top of a multi-asset token
//! ledger.
//!
//! The ledger tracks total supply and per-account balances of fungible asset
//! classes and enforces operator-delegated transfer permissions. The pool
//! engine keeps a two-asset reserve, issues proportional liquidity shares to
//! depositors, executes constant-product swaps with a configurable fee, and
//! lets providers redeem their share in both assets or a single one.
//!
//! Every public operation is one atomic state transition: it either completes
//! fully or returns a symbolic error with no observable change. The
//! contracts state each transition against a mathematical model of the state
//! (`LedgerSt`, `PoolSt`), and the conservation invariants — balances sum to
//! the total supply of each asset, liquidity shares sum to the total
//! liquidity — hold after every successful call.

pub mod errors;
pub mod erc1155;
pub mod fraction;
pub mod math;
pub mod ledger;
pub mod pool;

pub use errors::Error;
pub use erc1155::Erc1155;
pub use fraction::Fraction;
pub use ledger::Ledger;
pub use pool::Pool;

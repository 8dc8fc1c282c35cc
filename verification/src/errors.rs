use vstd::prelude::*;

verus! {

/// The error taxonomy shared by the token ledger and the pool engine.
///
/// Every failing operation returns exactly one of these and leaves the state
/// unchanged; no operation panics on any input.
#[derive(Clone, Copy, Debug, PartialEq, Eq, Structural)]
pub enum Error {
    /// An asset id, or the pool, has not been initialized yet.
    Uninitialized,
    /// An asset id, or the pool, was already initialized.
    AlreadyInitialized,
    /// A pool initialization amount was zero, or the pool account was the
    /// null sentinel.
    WrongInitialization,
    /// The asset id is not one of the pool's traded pair.
    WrongTokenId,
    /// An arithmetic step overflowed, or a division had no defined result.
    Overflow,
    /// A debit exceeded the payer's balance.
    InsufficientFunds,
    /// A withdrawal share percentage outside `1..=100`.
    InvalidShare,
    /// The pool holds no liquidity.
    NoLiquidity,
    /// The computed withdrawal share rounds to exactly zero.
    NoLiquidityToWithdraw,
    /// A transfer of amount zero.
    ZeroAmount,
    /// A transfer to the null sentinel account.
    ZeroAddress,
    /// A transfer from an account to itself.
    SelfTransfer,
    /// The owner has not approved the operator.
    NotApproved,
    /// Two zipped argument lists of different lengths.
    InsufficientData,
    /// An initial supply that scales to zero units.
    ZeroSupply,
}

} // verus!

use vstd::prelude::*;
use crate::errors::Error;
use crate::ledger::{Ledger, LedgerSt};

verus! {

/// The multi-asset token interface the pool engine relies on: initialization
/// of asset classes, supply and balance queries, operator-authorized
/// transfers, and the unauthorized transfer primitive.
///
/// Every method carries the same contract as the corresponding [`Ledger`]
/// operation, stated against the implementor's abstract state [`LedgerSt`]:
/// a call either performs the transition's `Ok` step or returns its error
/// with the state unchanged.
pub trait Erc1155 {
    /// The implementor's state as mathematics.
    spec fn model(&self) -> LedgerSt;

    /// The implementor's internal invariant, preserved by every method.
    spec fn inv(&self) -> bool;

    /// Initialize a batch of assets, crediting each scaled supply to `who`;
    /// all or none.
    fn init(&mut self, who: u64, token_ids: &Vec<u32>, supplies: &Vec<u128>) -> (r: Result<
        (),
        Error,
    >)
        requires
            old(self).inv(),
        ensures
            final(self).inv(),
            match r {
                Ok(()) => old(self).model().init_tr(who, token_ids@, supplies@) == Ok::<
                    LedgerSt,
                    Error,
                >(final(self).model()),
                Err(e) => final(self).model() == old(self).model() && old(self).model().init_tr(
                    who,
                    token_ids@,
                    supplies@,
                ) == Err::<LedgerSt, Error>(e),
            },
    ;

    /// The total supply of a live asset, or `Uninitialized`.
    fn total_supply(&self, token: u32) -> (r: Result<u128, Error>)
        requires
            self.inv(),
        ensures
            match r {
                Ok(v) => self.model().token_live(token) && v == self.model().supplies[token],
                Err(e) => !self.model().token_live(token) && e == Error::Uninitialized,
            },
    ;

    /// The balance of `account` in a live asset, or `Uninitialized`.
    fn balance_of(&self, account: u64, token: u32) -> (r: Result<u128, Error>)
        requires
            self.inv(),
        ensures
            match r {
                Ok(v) => self.model().token_live(token) && v == self.model().balance_of(
                    account,
                    token,
                ),
                Err(e) => !self.model().token_live(token) && e == Error::Uninitialized,
            },
    ;

    /// Pairwise balances for zipped account and asset lists.
    fn balance_of_batch(&self, accounts: &Vec<u64>, tokens: &Vec<u32>) -> (r: Result<
        Vec<u128>,
        Error,
    >)
        requires
            self.inv(),
        ensures
            r is Ok <==> (accounts@.len() == tokens@.len() && (forall|i: int|
                0 <= i < tokens@.len() ==> self.model().token_live(tokens@[i]))),
            match r {
                Ok(v) => v@.len() == accounts@.len() && (forall|i: int|
                    0 <= i < v@.len() ==> v@[i] == self.model().balance_of(
                        accounts@[i],
                        tokens@[i],
                    )),
                Err(e) => e == (if accounts@.len() != tokens@.len() {
                    Error::InsufficientData
                } else {
                    Error::Uninitialized
                }),
            },
    ;

    /// An operator-authorized transfer of one asset.
    fn transfer_from_single(&mut self, from: u64, to: u64, token: u32, amount: u128) -> (r: Result<
        (),
        Error,
    >)
        requires
            old(self).inv(),
        ensures
            final(self).inv(),
            match r {
                Ok(()) => old(self).model().transfer_from_single_tr(from, to, token, amount)
                    == Ok::<LedgerSt, Error>(final(self).model()),
                Err(e) => final(self).model() == old(self).model() && old(
                    self,
                ).model().transfer_from_single_tr(from, to, token, amount) == Err::<
                    LedgerSt,
                    Error,
                >(e),
            },
    ;

    /// An operator-authorized transfer of several assets; all pairs or none.
    fn transfer_from_batch(&mut self, from: u64, to: u64, token_ids: &Vec<u32>, amounts: &Vec<u128>)
        -> (r: Result<(), Error>)
        requires
            old(self).inv(),
        ensures
            final(self).inv(),
            match r {
                Ok(()) => old(self).model().transfer_from_batch_tr(from, to, token_ids@, amounts@)
                    == Ok::<LedgerSt, Error>(final(self).model()),
                Err(e) => final(self).model() == old(self).model() && old(
                    self,
                ).model().transfer_from_batch_tr(from, to, token_ids@, amounts@) == Err::<
                    LedgerSt,
                    Error,
                >(e),
            },
    ;

    /// The unauthorized transfer primitive; only for callers that already
    /// hold the right to move `from`'s funds.
    fn transfer(&mut self, from: u64, to: u64, token: u32, amount: u128) -> (r: Result<(), Error>)
        requires
            old(self).inv(),
        ensures
            final(self).inv(),
            match r {
                Ok(()) => old(self).model().transfer_tr(from, to, token, amount) == Ok::<
                    LedgerSt,
                    Error,
                >(final(self).model()),
                Err(e) => final(self).model() == old(self).model() && old(
                    self,
                ).model().transfer_tr(from, to, token, amount) == Err::<LedgerSt, Error>(e),
            },
    ;

    /// Record an approval: an unconditional, idempotent set.
    fn set_approval_for_all(&mut self, owner: u64, operator: u64, approved: bool)
        requires
            old(self).inv(),
        ensures
            final(self).inv(),
            final(self).model() == old(self).model().set_approval_tr(owner, operator, approved),
    ;
}

impl Erc1155 for Ledger {
    open spec fn model(&self) -> LedgerSt {
        self.st()
    }

    open spec fn inv(&self) -> bool {
        self.wf()
    }

    fn init(&mut self, who: u64, token_ids: &Vec<u32>, supplies: &Vec<u128>) -> (r: Result<
        (),
        Error,
    >) {
        Ledger::init(self, who, token_ids, supplies)
    }

    fn total_supply(&self, token: u32) -> (r: Result<u128, Error>) {
        Ledger::total_supply(self, token)
    }

    fn balance_of(&self, account: u64, token: u32) -> (r: Result<u128, Error>) {
        Ledger::balance_of(self, account, token)
    }

    fn balance_of_batch(&self, accounts: &Vec<u64>, tokens: &Vec<u32>) -> (r: Result<
        Vec<u128>,
        Error,
    >) {
        Ledger::balance_of_batch(self, accounts, tokens)
    }

    fn transfer_from_single(&mut self, from: u64, to: u64, token: u32, amount: u128) -> (r: Result<
        (),
        Error,
    >) {
        Ledger::transfer_from_single(self, from, to, token, amount)
    }

    fn transfer_from_batch(
        &mut self,
        from: u64,
        to: u64,
        token_ids: &Vec<u32>,
        amounts: &Vec<u128>,
    ) -> (r: Result<(), Error>) {
        Ledger::transfer_from_batch(self, from, to, token_ids, amounts)
    }

    fn transfer(&mut self, from: u64, to: u64, token: u32, amount: u128) -> (r: Result<
        (),
        Error,
    >) {
        Ledger::transfer(self, from, to, token, amount)
    }

    fn set_approval_for_all(&mut self, owner: u64, operator: u64, approved: bool) {
        Ledger::set_approval_for_all(self, owner, operator, approved)
    }
}

} // verus!

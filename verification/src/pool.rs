use vstd::prelude::*;
use crate::errors::Error;
use crate::fraction::{
    Fraction, ACCURACY, from_percent_parts, from_rational_parts, scale_parts, combine_parts,
};
use crate::ledger::{Ledger, LedgerSt, sum_amounts};
use crate::math::sqrt_floor;

verus! {

// ---------------------------------------------------------------------------
// Liquidity share entries
// ---------------------------------------------------------------------------

/// The liquidity share held by one account.
#[derive(Clone, Copy, Debug)]
pub struct ShareEntry {
    pub account: u64,
    pub amount: u128,
}

/// The share recorded for `a`, or 0 when there is no entry.
pub open spec fn share_in(s: Seq<ShareEntry>, a: u64) -> u128
    decreases s.len(),
{
    if s.len() == 0 {
        0
    } else if s.last().account == a {
        s.last().amount
    } else {
        share_in(s.drop_last(), a)
    }
}

/// The sum of all recorded liquidity shares.
pub open spec fn share_sum(s: Seq<ShareEntry>) -> int
    decreases s.len(),
{
    if s.len() == 0 {
        0
    } else {
        share_sum(s.drop_last()) + s.last().amount
    }
}

/// No two share entries name the same account.
pub open spec fn shares_unique(s: Seq<ShareEntry>) -> bool {
    forall|i: int, j: int| 0 <= i < j < s.len() ==> s[i].account != s[j].account
}

proof fn lemma_share_in_present(s: Seq<ShareEntry>, i: int)
    requires
        shares_unique(s),
        0 <= i < s.len(),
    ensures
        share_in(s, s[i].account) == s[i].amount,
    decreases s.len(),
{
    if i == s.len() - 1 {
    } else {
        lemma_share_in_present(s.drop_last(), i);
    }
}

proof fn lemma_share_in_absent(s: Seq<ShareEntry>, a: u64)
    requires
        forall|j: int| 0 <= j < s.len() ==> s[j].account != a,
    ensures
        share_in(s, a) == 0,
    decreases s.len(),
{
    if s.len() > 0 {
        lemma_share_in_absent(s.drop_last(), a);
    }
}

proof fn lemma_share_in_update(s: Seq<ShareEntry>, i: int, v: u128, a: u64)
    requires
        shares_unique(s),
        0 <= i < s.len(),
    ensures
        share_in(s.update(i, ShareEntry { amount: v, ..s[i] }), a) == if s[i].account == a {
            v
        } else {
            share_in(s, a)
        },
    decreases s.len(),
{
    let s2 = s.update(i, ShareEntry { amount: v, ..s[i] });
    if i == s.len() - 1 {
        assert(s2.drop_last() =~= s.drop_last());
    } else {
        assert(s2.drop_last() =~= s.drop_last().update(i, ShareEntry { amount: v, ..s[i] }));
        lemma_share_in_update(s.drop_last(), i, v, a);
    }
}

proof fn lemma_share_sum_update(s: Seq<ShareEntry>, i: int, v: u128)
    requires
        0 <= i < s.len(),
    ensures
        share_sum(s.update(i, ShareEntry { amount: v, ..s[i] })) == share_sum(s) + v as int
            - s[i].amount as int,
    decreases s.len(),
{
    let s2 = s.update(i, ShareEntry { amount: v, ..s[i] });
    if i == s.len() - 1 {
        assert(s2.drop_last() =~= s.drop_last());
    } else {
        assert(s2.drop_last() =~= s.drop_last().update(i, ShareEntry { amount: v, ..s[i] }));
        lemma_share_sum_update(s.drop_last(), i, v);
    }
}

proof fn lemma_share_push(s: Seq<ShareEntry>, e: ShareEntry, a: u64)
    ensures
        share_in(s.push(e), a) == if e.account == a {
            e.amount
        } else {
            share_in(s, a)
        },
        share_sum(s.push(e)) == share_sum(s) + e.amount,
{
    assert(s.push(e).drop_last() =~= s);
}

proof fn lemma_share_sum_nonneg(s: Seq<ShareEntry>)
    ensures
        share_sum(s) >= 0,
    decreases s.len(),
{
    if s.len() > 0 {
        lemma_share_sum_nonneg(s.drop_last());
    }
}

proof fn lemma_share_in_le_sum(s: Seq<ShareEntry>, a: u64)
    ensures
        share_in(s, a) as int <= share_sum(s),
    decreases s.len(),
{
    if s.len() > 0 {
        lemma_share_in_le_sum(s.drop_last(), a);
        if s.last().account == a {
            lemma_share_sum_nonneg(s.drop_last());
        }
    }
}

fn find_share(v: &Vec<ShareEntry>, a: u64) -> (r: Option<usize>)
    ensures
        match r {
            Some(i) => i < v@.len() && v@[i as int].account == a,
            None => forall|j: int| 0 <= j < v@.len() ==> v@[j].account != a,
        },
{
    let mut i: usize = 0;
    while i < v.len()
        invariant
            i <= v@.len(),
            forall|j: int| 0 <= j < i ==> v@[j].account != a,
        decreases v@.len() - i,
    {
        if v[i].account == a {
            return Some(i);
        }
        i = i + 1;
    }
    None
}

/// Record `value` as the share of `account`, replacing any previous record.
fn upsert_share(v: &mut Vec<ShareEntry>, account: u64, value: u128)
    requires
        shares_unique(old(v)@),
    ensures
        shares_unique(final(v)@),
        forall|a2: u64|
            #[trigger] share_in(final(v)@, a2) == (if a2 == account {
                value
            } else {
                share_in(old(v)@, a2)
            }),
        share_sum(final(v)@) == share_sum(old(v)@) + value as int - share_in(
            old(v)@,
            account,
        ) as int,
{
    let ghost s0 = v@;
    match find_share(v, account) {
        Some(i) => {
            proof {
                lemma_share_in_present(s0, i as int);
            }
            let e = ShareEntry { account: account, amount: value };
            v.set(i, e);
            proof {
                assert(v@ =~= s0.update(i as int, ShareEntry { amount: value, ..s0[i as int] }));
                assert forall|a2: u64|
                    #[trigger] share_in(v@, a2) == (if a2 == account {
                        value
                    } else {
                        share_in(s0, a2)
                    }) by {
                    lemma_share_in_update(s0, i as int, value, a2);
                }
                lemma_share_sum_update(s0, i as int, value);
                assert forall|i2: int, j2: int|
                    0 <= i2 < j2 < v@.len() implies v@[i2].account != v@[j2].account by {
                    assert(v@[i2].account == s0[i2].account);
                    assert(v@[j2].account == s0[j2].account);
                }
            }
        },
        None => {
            proof {
                lemma_share_in_absent(s0, account);
            }
            let e = ShareEntry { account: account, amount: value };
            v.push(e);
            proof {
                assert forall|a2: u64|
                    #[trigger] share_in(v@, a2) == (if a2 == account {
                        value
                    } else {
                        share_in(s0, a2)
                    }) by {
                    lemma_share_push(s0, e, a2);
                }
                lemma_share_push(s0, e, account);
            }
        },
    }
}

fn copy_shares(v: &Vec<ShareEntry>) -> (r: Vec<ShareEntry>)
    ensures
        r@ == v@,
{
    let mut r: Vec<ShareEntry> = Vec::new();
    let mut i: usize = 0;
    while i < v.len()
        invariant
            i <= v@.len(),
            r@ == v@.subrange(0, i as int),
        decreases v@.len() - i,
    {
        r.push(v[i]);
        proof {
            assert(r@ =~= v@.subrange(0, i + 1));
        }
        i = i + 1;
    }
    proof {
        assert(r@ =~= v@);
    }
    r
}

// ---------------------------------------------------------------------------
// Pricing arithmetic, as mathematics
// ---------------------------------------------------------------------------

/// The constant-product swap output: the fee-retained part of the input,
/// priced against the reserves, with integer floor division.
pub open spec fn price_value(fee: int, amount: int, reserve_in: int, reserve_out: int) -> int {
    let eff = scale_parts(fee, amount);
    eff * reserve_out / (reserve_in + eff)
}

/// [`price_value`] guarded by the machine checks: multiplication and addition
/// must stay within `u128`, and the divisor must be nonzero.
pub open spec fn price_ck(fee: int, amount: int, reserve_in: int, reserve_out: int) -> Result<
    u128,
    Error,
> {
    let eff = scale_parts(fee, amount);
    if eff * reserve_out > u128::MAX {
        Err(Error::Overflow)
    } else if reserve_in + eff > u128::MAX {
        Err(Error::Overflow)
    } else if reserve_in + eff == 0 {
        Err(Error::Overflow)
    } else {
        Ok((price_value(fee, amount, reserve_in, reserve_out)) as u128)
    }
}

/// The single-asset deposit split: the portion of `amount` to swap for the
/// paired asset, and the swap's output, solved in closed form from the
/// quadratic that equates the post-swap reserve ratio with the deposit ratio.
/// Every truncation step mirrors the checked machine arithmetic.
pub open spec fn single_deposit_ck(fee: int, amount: int, reserve_in: int, reserve_out: int)
    -> Result<(u128, u128), Error> {
    let d1 = scale_parts(combine_parts(fee, fee), reserve_in);
    if reserve_in * 2 > u128::MAX {
        Err(Error::Overflow)
    } else {
        let d2 = scale_parts(fee, reserve_in * 2);
        if amount * 2 > u128::MAX {
            Err(Error::Overflow)
        } else {
            let d3 = scale_parts(fee, 2) * (amount * 2);
            if d3 > u128::MAX {
                Err(Error::Overflow)
            } else if d1 + d2 + d3 + reserve_in > u128::MAX {
                Err(Error::Overflow)
            } else {
                let disc = sqrt_floor(reserve_in) * sqrt_floor(d1 + d2 + d3 + reserve_in);
                if disc > u128::MAX {
                    Err(Error::Overflow)
                } else if disc < reserve_in + scale_parts(fee, reserve_in) {
                    Err(Error::Overflow)
                } else if scale_parts(fee, 2) == 0 {
                    Err(Error::Overflow)
                } else {
                    let swap = (disc - reserve_in - scale_parts(fee, reserve_in)) / scale_parts(
                        fee,
                        2,
                    );
                    match price_ck(fee, swap, reserve_in, reserve_out) {
                        Ok(bought) => Ok((swap as u128, bought)),
                        Err(e) => Err(e),
                    }
                }
            }
        }
    }
}

// ---------------------------------------------------------------------------
// The abstract pool state and its transitions
// ---------------------------------------------------------------------------

/// The pool engine as mathematics.
#[verifier::ext_equal]
pub struct PoolSt {
    /// The retention fraction, in parts of [`ACCURACY`]: the portion of a
    /// swap's input counted toward the price; `1 - fee` stays with the pool.
    pub fee: int,
    pub initialized: bool,
    /// The dedicated pool account, meaningful once initialized.
    pub account: u64,
    pub token_a: u32,
    pub token_b: u32,
    pub total: u128,
    pub shares: Map<u64, u128>,
}

impl PoolSt {
    /// The liquidity share of `a`.
    pub open spec fn share_of(self, a: u64) -> u128 {
        self.shares[a]
    }

    /// Whether `t` is one of the traded pair.
    pub open spec fn has_pair_token(self, t: u32) -> bool {
        t == self.token_a || t == self.token_b
    }

    /// The other asset of the pair.
    pub open spec fn paired_token(self, t: u32) -> u32 {
        if t == self.token_a {
            self.token_b
        } else {
            self.token_a
        }
    }

    /// The withdrawal share of `owner`: `share_percent` percent of the
    /// owner's portion of the total liquidity.
    pub open spec fn withdraw_share(self, owner: u64, share_percent: u32) -> int {
        combine_parts(
            from_percent_parts(share_percent as int),
            from_rational_parts(self.share_of(owner) as int, self.total as int),
        )
    }

    /// Mint `amount` of liquidity to `owner` and to the total.
    pub open spec fn increase_liquidity_tr(self, owner: u64, amount: u128) -> Result<
        PoolSt,
        Error,
    > {
        if self.total + amount > u128::MAX {
            Err(Error::Overflow)
        } else if self.share_of(owner) + amount > u128::MAX {
            Err(Error::Overflow)
        } else {
            Ok(
                PoolSt {
                    total: (self.total + amount) as u128,
                    shares: self.shares.insert(owner, (self.share_of(owner) + amount) as u128),
                    ..self
                },
            )
        }
    }

    /// Burn `amount` of liquidity from `owner` and from the total.
    pub open spec fn decrease_liquidity_tr(self, owner: u64, amount: u128) -> Result<
        PoolSt,
        Error,
    > {
        if self.total < amount {
            Err(Error::Overflow)
        } else if self.share_of(owner) < amount {
            Err(Error::Overflow)
        } else {
            Ok(
                PoolSt {
                    total: (self.total - amount) as u128,
                    shares: self.shares.insert(owner, (self.share_of(owner) - amount) as u128),
                    ..self
                },
            )
        }
    }

    /// Bootstrap the pool: fund the pool account with both assets from the
    /// caller and credit the caller with all initial liquidity, the raw sum
    /// of the two amounts.
    pub open spec fn init_tr(
        self,
        l: LedgerSt,
        sender: u64,
        pool_address: u64,
        first_token_id: u32,
        first_token_amount: u128,
        second_token_id: u32,
        second_token_amount: u128,
    ) -> Result<(PoolSt, LedgerSt), Error> {
        if self.initialized {
            Err(Error::AlreadyInitialized)
        } else if first_token_amount == 0 || second_token_amount == 0 || pool_address == 0 {
            Err(Error::WrongInitialization)
        } else {
            match l.transfer_from_batch_tr(
                sender,
                pool_address,
                seq![first_token_id, second_token_id],
                seq![first_token_amount, second_token_amount],
            ) {
                Err(e) => Err(e),
                Ok(l2) => if first_token_amount + second_token_amount > u128::MAX {
                    Err(Error::Overflow)
                } else {
                    Ok(
                        (
                            PoolSt {
                                initialized: true,
                                account: pool_address,
                                token_a: first_token_id,
                                token_b: second_token_id,
                                total: (first_token_amount + second_token_amount) as u128,
                                shares: self.shares.insert(
                                    sender,
                                    (first_token_amount + second_token_amount) as u128,
                                ),
                                ..self
                            },
                            l2,
                        ),
                    )
                },
            }
        }
    }

    /// Swap `amount` of `token_id` for the paired asset at the current
    /// reserves; the caller pays in, the pool pays out, no share changes.
    /// Both legs move through the unauthorized transfer primitive: the caller
    /// is the direct source of the pay-in, so no operator approval is
    /// consulted.
    pub open spec fn buy_token_tr(self, l: LedgerSt, sender: u64, token_id: u32, amount: u128)
        -> Result<(PoolSt, LedgerSt), Error> {
        if !self.initialized {
            Err(Error::Uninitialized)
        } else if self.total == 0 {
            Err(Error::NoLiquidity)
        } else if !self.has_pair_token(token_id) {
            Err(Error::WrongTokenId)
        } else {
            let other = self.paired_token(token_id);
            if !l.token_live(token_id) || !l.token_live(other) {
                Err(Error::Uninitialized)
            } else {
                let reserve_in = l.balance_of(self.account, token_id);
                let reserve_out = l.balance_of(self.account, other);
                match price_ck(self.fee, amount as int, reserve_in as int, reserve_out as int) {
                    Err(e) => Err(e),
                    Ok(bought) => match l.transfer_tr(sender, self.account, token_id, amount) {
                        Err(e) => Err(e),
                        Ok(l2) => match l2.transfer_tr(self.account, sender, other, bought) {
                            Err(e) => Err(e),
                            Ok(l3) => Ok((self, l3)),
                        },
                    },
                }
            }
        }
    }

    /// Deposit `amount` of `token_id` and the ratio-preserving amount of the
    /// paired asset; mint their sum as liquidity to the caller.
    pub open spec fn deposit_tr(self, l: LedgerSt, sender: u64, token_id: u32, amount: u128)
        -> Result<(PoolSt, LedgerSt), Error> {
        if !self.initialized {
            Err(Error::Uninitialized)
        } else if !self.has_pair_token(token_id) {
            Err(Error::WrongTokenId)
        } else {
            let other = self.paired_token(token_id);
            if !l.token_live(token_id) || !l.token_live(other) {
                Err(Error::Uninitialized)
            } else {
                let reserve_in = l.balance_of(self.account, token_id);
                let reserve_out = l.balance_of(self.account, other);
                if amount as int * reserve_out as int > u128::MAX {
                    Err(Error::Overflow)
                } else if reserve_in == 0 {
                    Err(Error::Overflow)
                } else {
                    let second = amount as int * reserve_out as int / (reserve_in as int);
                    if amount + second > u128::MAX {
                        Err(Error::Overflow)
                    } else {
                        match self.increase_liquidity_tr(sender, (amount + second) as u128) {
                            Err(e) => Err(e),
                            Ok(p2) => match l.transfer_from_batch_tr(
                                sender,
                                self.account,
                                seq![token_id, other],
                                seq![amount, second as u128],
                            ) {
                                Err(e) => Err(e),
                                Ok(l2) => Ok((p2, l2)),
                            },
                        }
                    }
                }
            }
        }
    }

    /// Deposit only `token_id`: split the amount into a swapped portion and a
    /// direct portion by [`single_deposit_ck`], mint their sum.
    pub open spec fn deposit_single_token_tr(
        self,
        l: LedgerSt,
        sender: u64,
        token_id: u32,
        amount: u128,
    ) -> Result<(PoolSt, LedgerSt), Error> {
        if !self.initialized {
            Err(Error::Uninitialized)
        } else if !self.has_pair_token(token_id) {
            Err(Error::WrongTokenId)
        } else {
            let other = self.paired_token(token_id);
            if !l.token_live(token_id) || !l.token_live(other) {
                Err(Error::Uninitialized)
            } else {
                let reserve_in = l.balance_of(self.account, token_id);
                let reserve_out = l.balance_of(self.account, other);
                match single_deposit_ck(self.fee, amount as int, reserve_in as int, reserve_out as int) {
                    Err(e) => Err(e),
                    Ok((swap, bought)) => if swap + bought > u128::MAX {
                        Err(Error::Overflow)
                    } else {
                        match self.increase_liquidity_tr(sender, (swap + bought) as u128) {
                            Err(e) => Err(e),
                            Ok(p2) => match l.transfer_from_single_tr(
                                sender,
                                self.account,
                                token_id,
                                amount,
                            ) {
                                Err(e) => Err(e),
                                Ok(l2) => if amount < swap {
                                    Err(Error::Overflow)
                                } else {
                                    Ok((p2, l2))
                                },
                            },
                        }
                    },
                }
            }
        }
    }

    /// Redeem `share_percent` percent of the caller's share in both assets,
    /// at the live reserves.
    pub open spec fn withdraw_tr(self, l: LedgerSt, sender: u64, share_percent: u32) -> Result<
        (PoolSt, LedgerSt),
        Error,
    > {
        if !self.initialized {
            Err(Error::Uninitialized)
        } else if share_percent == 0 || share_percent > 100 {
            Err(Error::InvalidShare)
        } else if !l.token_live(self.token_a) || !l.token_live(self.token_b) {
            Err(Error::Uninitialized)
        } else {
            let reserve_a = l.balance_of(self.account, self.token_a);
            let reserve_b = l.balance_of(self.account, self.token_b);
            let share = self.withdraw_share(sender, share_percent);
            let amount_a = scale_parts(share, reserve_a as int);
            let amount_b = scale_parts(share, reserve_b as int);
            let burn = scale_parts(share, self.total as int);
            match self.decrease_liquidity_tr(sender, burn as u128) {
                Err(e) => Err(e),
                Ok(p2) => match l.transfer_tr(
                    self.account,
                    sender,
                    self.token_a,
                    amount_a as u128,
                ) {
                    Err(e) => Err(e),
                    Ok(l2) => match l2.transfer_tr(
                        self.account,
                        sender,
                        self.token_b,
                        amount_b as u128,
                    ) {
                        Err(e) => Err(e),
                        Ok(l3) => Ok((p2, l3)),
                    },
                },
            }
        }
    }

    /// Redeem `share_percent` percent of the caller's share entirely in
    /// `token_id`: the paired asset's portion is swapped into `token_id`
    /// against the post-removal reserves.
    pub open spec fn withdraw_single_token_tr(
        self,
        l: LedgerSt,
        sender: u64,
        token_id: u32,
        share_percent: u32,
    ) -> Result<(PoolSt, LedgerSt), Error> {
        if !self.initialized {
            Err(Error::Uninitialized)
        } else if share_percent == 0 || share_percent > 100 {
            Err(Error::InvalidShare)
        } else {
            let share = self.withdraw_share(sender, share_percent);
            if share == 0 {
                Err(Error::NoLiquidityToWithdraw)
            } else if !self.has_pair_token(token_id) {
                Err(Error::WrongTokenId)
            } else {
                let other = self.paired_token(token_id);
                if !l.token_live(token_id) || !l.token_live(other) {
                    Err(Error::Uninitialized)
                } else {
                    let reserve_own = l.balance_of(self.account, token_id);
                    let reserve_other = l.balance_of(self.account, other);
                    let amount_own = scale_parts(share, reserve_own as int);
                    let amount_other = scale_parts(share, reserve_other as int);
                    if reserve_own < amount_own {
                        Err(Error::Overflow)
                    } else {
                        match price_ck(
                            self.fee,
                            amount_other,
                            reserve_other as int,
                            reserve_own - amount_own,
                        ) {
                            Err(e) => Err(e),
                            Ok(bought) => {
                                let burn = scale_parts(share, self.total as int);
                                match self.decrease_liquidity_tr(sender, burn as u128) {
                                    Err(e) => Err(e),
                                    Ok(p2) => if amount_own + bought > u128::MAX {
                                        Err(Error::Overflow)
                                    } else {
                                        match l.transfer_tr(
                                            self.account,
                                            sender,
                                            token_id,
                                            (amount_own + bought) as u128,
                                        ) {
                                            Err(e) => Err(e),
                                            Ok(l2) => Ok((p2, l2)),
                                        }
                                    },
                                }
                            },
                        }
                    }
                }
            }
        }
    }

    /// The accumulated trading fees: pool reserves beyond the accounted
    /// liquidity.
    pub open spec fn total_reward_tr(self, l: LedgerSt) -> Result<u128, Error> {
        if !self.initialized {
            Err(Error::Uninitialized)
        } else if !l.token_live(self.token_a) || !l.token_live(self.token_b) {
            Err(Error::Uninitialized)
        } else {
            let reserves = l.balance_of(self.account, self.token_a)
                + l.balance_of(self.account, self.token_b);
            if reserves > u128::MAX {
                Err(Error::Overflow)
            } else if reserves < self.total {
                Err(Error::Overflow)
            } else {
                Ok((reserves - self.total) as u128)
            }
        }
    }
}

/// The pool before initialization.
pub open spec fn initial_pool(fee: int) -> PoolSt {
    PoolSt {
        fee: fee,
        initialized: false,
        account: 0,
        token_a: 0,
        token_b: 0,
        total: 0,
        shares: Map::new(|a: u64| true, |a: u64| 0u128),
    }
}

// ---------------------------------------------------------------------------
// The concrete pool engine
// ---------------------------------------------------------------------------

/// The pool engine: a two-asset reserve held in a dedicated ledger account,
/// with proportional liquidity shares and constant-product pricing.
///
/// Reserves are never cached: every operation reads the pool account's live
/// balances from the ledger it is handed.
pub struct Pool {
    fee: Fraction,
    initialized: bool,
    account: u64,
    token_a: u32,
    token_b: u32,
    total: u128,
    shares: Vec<ShareEntry>,
}

impl Pool {
    /// The pool as mathematics.
    pub closed spec fn st(self) -> PoolSt {
        PoolSt {
            fee: self.fee.parts(),
            initialized: self.initialized,
            account: self.account,
            token_a: self.token_a,
            token_b: self.token_b,
            total: self.total,
            shares: Map::new(|a: u64| true, |a: u64| share_in(self.shares@, a)),
        }
    }

    /// Internal well-formedness: unique share entries, a valid fee, no
    /// liquidity before initialization — and the share invariant: the
    /// liquidity shares over all accounts sum to exactly the total liquidity.
    pub closed spec fn wf(self) -> bool {
        &&& shares_unique(self.shares@)
        &&& share_sum(self.shares@) == self.total
        &&& self.fee.is_valid()
        &&& (!self.initialized ==> self.total == 0)
    }

    /// The share invariant, stated on the abstract map: the recorded shares
    /// sum to the total liquidity. `holders` lists the accounts carrying an
    /// entry, each exactly once.
    pub proof fn lemma_share_conservation(self) -> (holders: Seq<(u64, u128)>)
        requires
            self.wf(),
        ensures
            sum_amounts(holders) == self.st().total,
            forall|i: int, j: int|
                0 <= i < j < holders.len() ==> holders[i].0 != holders[j].0,
            forall|i: int|
                0 <= i < holders.len() ==> #[trigger] holders[i].1 == self.st().share_of(
                    holders[i].0,
                ),
    {
        lemma_share_holders(self.shares@);
        let hs = share_holders(self.shares@);
        assert forall|i: int|
            0 <= i < hs.len() implies #[trigger] hs[i].1 == self.st().share_of(hs[i].0) by {
            assert(share_in(self.shares@, hs[i].0) == hs[i].1);
        }
        hs
    }

    /// A fresh, uninitialized pool with retention fraction `fee`.
    pub fn new(fee: Fraction) -> (r: Pool)
        requires
            fee.is_valid(),
        ensures
            r.wf(),
            r.st() == initial_pool(fee.parts()),
    {
        let r = Pool {
            fee: fee,
            initialized: false,
            account: 0,
            token_a: 0,
            token_b: 0,
            total: 0,
            shares: Vec::new(),
        };
        proof {
            assert(r.st().shares =~= initial_pool(fee.parts()).shares);
            assert(r.st() =~= initial_pool(fee.parts()));
        }
        r
    }

    /// Storage getter: the pool account, once initialized.
    pub fn get_pool_address(&self) -> (r: Option<u64>)
        ensures
            r == if self.st().initialized {
                Some(self.st().account)
            } else {
                None::<u64>
            },
    {
        if self.initialized {
            Some(self.account)
        } else {
            None
        }
    }

    /// Storage getter: the traded pair, once initialized.
    pub fn get_token_ids(&self) -> (r: Option<(u32, u32)>)
        ensures
            r == if self.st().initialized {
                Some((self.st().token_a, self.st().token_b))
            } else {
                None::<(u32, u32)>
            },
    {
        if self.initialized {
            Some((self.token_a, self.token_b))
        } else {
            None
        }
    }

    /// Storage getter: the accounted total liquidity, once initialized.
    pub fn get_total_liquidity(&self) -> (r: Option<u128>)
        ensures
            r == if self.st().initialized {
                Some(self.st().total)
            } else {
                None::<u128>
            },
    {
        if self.initialized {
            Some(self.total)
        } else {
            None
        }
    }

    /// Storage getter: the liquidity share of `owner`, 0 by default.
    pub fn get_liquidity(&self, owner: u64) -> (r: u128)
        requires
            self.wf(),
        ensures
            r == self.st().share_of(owner),
    {
        match find_share(&self.shares, owner) {
            Some(i) => {
                proof {
                    lemma_share_in_present(self.shares@, i as int);
                }
                self.shares[i].amount
            },
            None => {
                proof {
                    lemma_share_in_absent(self.shares@, owner);
                }
                0
            },
        }
    }

    /// The swap output for `amount` against the given reserves.
    fn price(&self, amount: u128, reserve_in: u128, reserve_out: u128) -> (r: Result<u128, Error>)
        requires
            self.wf(),
        ensures
            r == price_ck(self.st().fee, amount as int, reserve_in as int, reserve_out as int),
    {
        let eff = self.fee.apply(amount);
        let num = match crate::math::checked_mul(eff, reserve_out) {
            Some(v) => v,
            None => {
                return Err(Error::Overflow);
            },
        };
        let den = match crate::math::checked_add(reserve_in, eff) {
            Some(v) => v,
            None => {
                return Err(Error::Overflow);
            },
        };
        if den == 0 {
            return Err(Error::Overflow);
        }
        Ok(num / den)
    }

    /// The caller's fraction of the pool: their share over the total
    /// liquidity.
    pub fn get_pool_share(&self, owner: u64) -> (r: Result<Fraction, Error>)
        requires
            self.wf(),
        ensures
            match r {
                Ok(f) => self.st().initialized && f.is_valid() && f.parts()
                    == from_rational_parts(
                    self.st().share_of(owner) as int,
                    self.st().total as int,
                ),
                Err(e) => !self.st().initialized && e == Error::Uninitialized,
            },
    {
        if !self.initialized {
            return Err(Error::Uninitialized);
        }
        let liq = self.get_liquidity(owner);
        Ok(Fraction::from_rational(liq, self.total))
    }

    /// The accumulated but unattributed trading fees: the pool's combined
    /// reserves beyond the accounted total liquidity.
    pub fn get_total_reward(&self, ledger: &Ledger) -> (r: Result<u128, Error>)
        requires
            self.wf(),
            ledger.wf(),
        ensures
            r == self.st().total_reward_tr(ledger.st()),
    {
        if !self.initialized {
            return Err(Error::Uninitialized);
        }
        let reserve_a = match ledger.balance_of(self.account, self.token_a) {
            Ok(v) => v,
            Err(e) => {
                return Err(e);
            },
        };
        let reserve_b = match ledger.balance_of(self.account, self.token_b) {
            Ok(v) => v,
            Err(e) => {
                return Err(e);
            },
        };
        let reserves = match crate::math::checked_add(reserve_a, reserve_b) {
            Some(v) => v,
            None => {
                return Err(Error::Overflow);
            },
        };
        if reserves < self.total {
            return Err(Error::Overflow);
        }
        Ok(reserves - self.total)
    }

    /// The caller's portion of the accumulated reward.
    pub fn get_reward(&self, ledger: &Ledger, owner: u64) -> (r: Result<u128, Error>)
        requires
            self.wf(),
            ledger.wf(),
        ensures
            match r {
                Ok(v) => self.st().initialized && self.st().total_reward_tr(ledger.st()) is Ok
                    && v == scale_parts(
                    from_rational_parts(
                        self.st().share_of(owner) as int,
                        self.st().total as int,
                    ),
                    self.st().total_reward_tr(ledger.st()).unwrap() as int,
                ),
                Err(e) => (if !self.st().initialized {
                    e == Error::Uninitialized
                } else {
                    self.st().total_reward_tr(ledger.st()) == Err::<u128, Error>(e)
                }),
            },
    {
        let share = match self.get_pool_share(owner) {
            Ok(f) => f,
            Err(e) => {
                return Err(e);
            },
        };
        let reward = match self.get_total_reward(ledger) {
            Ok(v) => v,
            Err(e) => {
                return Err(e);
            },
        };
        proof {
            crate::fraction::lemma_from_rational_valid(
                self.st().share_of(owner) as int,
                self.st().total as int,
            );
        }
        Ok(share.apply(reward))
    }
}

/// The accounts holding a liquidity share, with their amounts.
spec fn share_holders(s: Seq<ShareEntry>) -> Seq<(u64, u128)>
    decreases s.len(),
{
    if s.len() == 0 {
        Seq::empty()
    } else {
        share_holders(s.drop_last()).push((s.last().account, s.last().amount))
    }
}

proof fn lemma_share_holders(s: Seq<ShareEntry>)
    requires
        shares_unique(s),
    ensures
        sum_amounts(share_holders(s)) == share_sum(s),
        forall|i: int, j: int|
            0 <= i < j < share_holders(s).len() ==> share_holders(s)[i].0 != share_holders(s)[j].0,
        forall|i: int|
            0 <= i < share_holders(s).len() ==> #[trigger] share_holders(s)[i].1 == share_in(
                s,
                share_holders(s)[i].0,
            ),
    decreases s.len(),
{
    if s.len() > 0 {
        lemma_share_holders(s.drop_last());
        let hs = share_holders(s);
        let prev = share_holders(s.drop_last());
        assert(hs.drop_last() =~= prev);
        assert forall|i: int| 0 <= i < prev.len() implies prev[i].0 != s.last().account by {
            if prev[i].0 == s.last().account {
                lemma_share_holder_entry_exists(s.drop_last(), i);
            }
        }
        assert forall|i: int|
            0 <= i < hs.len() implies #[trigger] hs[i].1 == share_in(s, hs[i].0) by {
            if i < prev.len() {
                assert(hs[i] == prev[i]);
            }
        }
    }
}

proof fn lemma_share_holder_entry_exists(s: Seq<ShareEntry>, i: int)
    requires
        0 <= i < share_holders(s).len(),
    ensures
        exists|j: int| 0 <= j < s.len() && s[j].account == share_holders(s)[i].0,
    decreases s.len(),
{
    if s.len() > 0 {
        let prev = share_holders(s.drop_last());
        if i == prev.len() {
            assert(s[s.len() - 1].account == share_holders(s)[i].0);
        } else {
            lemma_share_holder_entry_exists(s.drop_last(), i);
            let j = choose|j: int|
                0 <= j < s.drop_last().len() && s.drop_last()[j].account == share_holders(
                    s.drop_last(),
                )[i].0;
            assert(s[j].account == share_holders(s)[i].0);
        }
    }
}

impl Pool {
    /// The single-asset deposit split: how much of `amount` to swap and what
    /// the swap returns, per [`single_deposit_ck`].
    fn calculate_single_token_ration(
        &self,
        amount: u128,
        reserve_in: u128,
        reserve_out: u128,
    ) -> (r: Result<(u128, u128), Error>)
        requires
            self.wf(),
        ensures
            r == single_deposit_ck(
                self.st().fee,
                amount as int,
                reserve_in as int,
                reserve_out as int,
            ),
    {
        let fee = self.fee;
        let d1 = fee.combine(fee).apply(reserve_in);
        let rin2 = match crate::math::checked_mul(reserve_in, 2) {
            Some(v) => v,
            None => {
                return Err(Error::Overflow);
            },
        };
        let d2 = fee.apply(rin2);
        let am2 = match crate::math::checked_mul(amount, 2) {
            Some(v) => v,
            None => {
                return Err(Error::Overflow);
            },
        };
        let d3 = match crate::math::checked_mul(fee.apply(2), am2) {
            Some(v) => v,
            None => {
                return Err(Error::Overflow);
            },
        };
        let s1 = match crate::math::checked_add(d1, d2) {
            Some(v) => v,
            None => {
                return Err(Error::Overflow);
            },
        };
        let s2 = match crate::math::checked_add(s1, d3) {
            Some(v) => v,
            None => {
                return Err(Error::Overflow);
            },
        };
        let d = match crate::math::checked_add(s2, reserve_in) {
            Some(v) => v,
            None => {
                return Err(Error::Overflow);
            },
        };
        let disc = match crate::math::checked_mul(
            crate::math::integer_sqrt(reserve_in),
            crate::math::integer_sqrt(d),
        ) {
            Some(v) => v,
            None => {
                return Err(Error::Overflow);
            },
        };
        let frin = fee.apply(reserve_in);
        if disc < reserve_in {
            return Err(Error::Overflow);
        }
        if disc - reserve_in < frin {
            return Err(Error::Overflow);
        }
        let den = fee.apply(2);
        if den == 0 {
            return Err(Error::Overflow);
        }
        let swap = (disc - reserve_in - frin) / den;
        match self.price(swap, reserve_in, reserve_out) {
            Ok(bought) => Ok((swap, bought)),
            Err(e) => Err(e),
        }
    }

    /// Bootstrap the pool from the caller's own balances. Fixes the pool
    /// account and the traded pair forever and credits the caller with all
    /// initial liquidity.
    pub fn init(
        &mut self,
        ledger: &mut Ledger,
        sender: u64,
        pool_address: u64,
        first_token_id: u32,
        first_token_amount: u128,
        second_token_id: u32,
        second_token_amount: u128,
    ) -> (r: Result<(), Error>)
        requires
            old(self).wf(),
            old(ledger).wf(),
        ensures
            final(self).wf(),
            final(ledger).wf(),
            match r {
                Ok(()) => old(self).st().init_tr(
                    old(ledger).st(),
                    sender,
                    pool_address,
                    first_token_id,
                    first_token_amount,
                    second_token_id,
                    second_token_amount,
                ) == Ok::<(PoolSt, LedgerSt), Error>((final(self).st(), final(ledger).st())),
                Err(e) => final(self).st() == old(self).st() && final(ledger).st() == old(
                    ledger,
                ).st() && old(self).st().init_tr(
                    old(ledger).st(),
                    sender,
                    pool_address,
                    first_token_id,
                    first_token_amount,
                    second_token_id,
                    second_token_amount,
                ) == Err::<(PoolSt, LedgerSt), Error>(e),
            },
    {
        if self.initialized {
            return Err(Error::AlreadyInitialized);
        }
        if first_token_amount == 0 || second_token_amount == 0 || pool_address == 0 {
            return Err(Error::WrongInitialization);
        }
        let mut ids: Vec<u32> = Vec::new();
        ids.push(first_token_id);
        ids.push(second_token_id);
        let mut amts: Vec<u128> = Vec::new();
        amts.push(first_token_amount);
        amts.push(second_token_amount);
        proof {
            assert(ids@ =~= seq![first_token_id, second_token_id]);
            assert(amts@ =~= seq![first_token_amount, second_token_amount]);
        }
        let saved = ledger.duplicate();
        match ledger.transfer_from_batch(sender, pool_address, &ids, &amts) {
            Err(e) => {
                return Err(e);
            },
            Ok(()) => {},
        }
        if first_token_amount > u128::MAX - second_token_amount {
            *ledger = saved;
            return Err(Error::Overflow);
        }
        let total = first_token_amount + second_token_amount;
        let ghost pst0 = self.st();
        proof {
            lemma_share_in_le_sum(self.shares@, sender);
            lemma_share_sum_nonneg(self.shares@);
        }
        self.initialized = true;
        self.account = pool_address;
        self.token_a = first_token_id;
        self.token_b = second_token_id;
        self.total = total;
        upsert_share(&mut self.shares, sender, total);
        proof {
            let expected = PoolSt {
                initialized: true,
                account: pool_address,
                token_a: first_token_id,
                token_b: second_token_id,
                total: total,
                shares: pst0.shares.insert(sender, total),
                ..pst0
            };
            assert(self.st().shares =~= expected.shares);
            assert(self.st() =~= expected);
        }
        Ok(())
    }

    /// Swap `amount` of `token_id` for the paired asset at the live
    /// reserves; no liquidity share changes. The caller is the direct source
    /// of the pay-in, so no operator approval is consulted on either leg.
    pub fn buy_token(&mut self, ledger: &mut Ledger, sender: u64, token_id: u32, amount: u128)
        -> (r: Result<(), Error>)
        requires
            old(self).wf(),
            old(ledger).wf(),
        ensures
            final(self).wf(),
            final(ledger).wf(),
            match r {
                Ok(()) => old(self).st().buy_token_tr(old(ledger).st(), sender, token_id, amount)
                    == Ok::<(PoolSt, LedgerSt), Error>((final(self).st(), final(ledger).st())),
                Err(e) => final(self).st() == old(self).st() && final(ledger).st() == old(
                    ledger,
                ).st() && old(self).st().buy_token_tr(old(ledger).st(), sender, token_id, amount)
                    == Err::<(PoolSt, LedgerSt), Error>(e),
            },
    {
        if !self.initialized {
            return Err(Error::Uninitialized);
        }
        if self.total == 0 {
            return Err(Error::NoLiquidity);
        }
        let other = if token_id == self.token_a {
            self.token_b
        } else if token_id == self.token_b {
            self.token_a
        } else {
            return Err(Error::WrongTokenId);
        };
        let reserve_in = match ledger.balance_of(self.account, token_id) {
            Ok(v) => v,
            Err(e) => {
                return Err(e);
            },
        };
        let reserve_out = match ledger.balance_of(self.account, other) {
            Ok(v) => v,
            Err(e) => {
                return Err(e);
            },
        };
        let bought = match self.price(amount, reserve_in, reserve_out) {
            Ok(v) => v,
            Err(e) => {
                return Err(e);
            },
        };
        let saved = ledger.duplicate();
        match ledger.transfer(sender, self.account, token_id, amount) {
            Err(e) => {
                return Err(e);
            },
            Ok(()) => {},
        }
        match ledger.transfer(self.account, sender, other, bought) {
            Err(e) => {
                *ledger = saved;
                return Err(e);
            },
            Ok(()) => {},
        }
        Ok(())
    }

    /// Deposit `amount` of `token_id` together with the ratio-preserving
    /// amount of the paired asset; mint their sum as liquidity.
    pub fn deposit(&mut self, ledger: &mut Ledger, sender: u64, token_id: u32, amount: u128) -> (r:
        Result<(), Error>)
        requires
            old(self).wf(),
            old(ledger).wf(),
        ensures
            final(self).wf(),
            final(ledger).wf(),
            match r {
                Ok(()) => old(self).st().deposit_tr(old(ledger).st(), sender, token_id, amount)
                    == Ok::<(PoolSt, LedgerSt), Error>((final(self).st(), final(ledger).st())),
                Err(e) => final(self).st() == old(self).st() && final(ledger).st() == old(
                    ledger,
                ).st() && old(self).st().deposit_tr(old(ledger).st(), sender, token_id, amount)
                    == Err::<(PoolSt, LedgerSt), Error>(e),
            },
    {
        if !self.initialized {
            return Err(Error::Uninitialized);
        }
        let other = if token_id == self.token_a {
            self.token_b
        } else if token_id == self.token_b {
            self.token_a
        } else {
            return Err(Error::WrongTokenId);
        };
        let reserve_in = match ledger.balance_of(self.account, token_id) {
            Ok(v) => v,
            Err(e) => {
                return Err(e);
            },
        };
        let reserve_out = match ledger.balance_of(self.account, other) {
            Ok(v) => v,
            Err(e) => {
                return Err(e);
            },
        };
        let m = match crate::math::checked_mul(amount, reserve_out) {
            Some(v) => v,
            None => {
                return Err(Error::Overflow);
            },
        };
        if reserve_in == 0 {
            return Err(Error::Overflow);
        }
        let second = m / reserve_in;
        let minted = match crate::math::checked_add(amount, second) {
            Some(v) => v,
            None => {
                return Err(Error::Overflow);
            },
        };
        if self.total > u128::MAX - minted {
            return Err(Error::Overflow);
        }
        let cur = self.get_liquidity(sender);
        if cur > u128::MAX - minted {
            return Err(Error::Overflow);
        }
        let mut ids: Vec<u32> = Vec::new();
        ids.push(token_id);
        ids.push(other);
        let mut amts: Vec<u128> = Vec::new();
        amts.push(amount);
        amts.push(second);
        proof {
            assert(ids@ =~= seq![token_id, other]);
            assert(amts@ =~= seq![amount, second]);
        }
        match ledger.transfer_from_batch(sender, self.account, &ids, &amts) {
            Err(e) => {
                return Err(e);
            },
            Ok(()) => {},
        }
        let ghost pst0 = self.st();
        self.total = self.total + minted;
        upsert_share(&mut self.shares, sender, cur + minted);
        proof {
            let expected = PoolSt {
                total: (pst0.total + minted) as u128,
                shares: pst0.shares.insert(sender, (pst0.share_of(sender) + minted) as u128),
                ..pst0
            };
            assert(self.st().shares =~= expected.shares);
            assert(self.st() =~= expected);
        }
        Ok(())
    }

    /// Deposit only `token_id`: a portion is swapped internally for the
    /// paired asset so that the net effect matches the pool's current ratio;
    /// the swapped portion plus the swap output is minted as liquidity.
    pub fn deposit_single_token(
        &mut self,
        ledger: &mut Ledger,
        sender: u64,
        token_id: u32,
        amount: u128,
    ) -> (r: Result<(), Error>)
        requires
            old(self).wf(),
            old(ledger).wf(),
        ensures
            final(self).wf(),
            final(ledger).wf(),
            match r {
                Ok(()) => old(self).st().deposit_single_token_tr(
                    old(ledger).st(),
                    sender,
                    token_id,
                    amount,
                ) == Ok::<(PoolSt, LedgerSt), Error>((final(self).st(), final(ledger).st())),
                Err(e) => final(self).st() == old(self).st() && final(ledger).st() == old(
                    ledger,
                ).st() && old(self).st().deposit_single_token_tr(
                    old(ledger).st(),
                    sender,
                    token_id,
                    amount,
                ) == Err::<(PoolSt, LedgerSt), Error>(e),
            },
    {
        if !self.initialized {
            return Err(Error::Uninitialized);
        }
        let other = if token_id == self.token_a {
            self.token_b
        } else if token_id == self.token_b {
            self.token_a
        } else {
            return Err(Error::WrongTokenId);
        };
        let reserve_in = match ledger.balance_of(self.account, token_id) {
            Ok(v) => v,
            Err(e) => {
                return Err(e);
            },
        };
        let reserve_out = match ledger.balance_of(self.account, other) {
            Ok(v) => v,
            Err(e) => {
                return Err(e);
            },
        };
        let (swap, bought) = match self.calculate_single_token_ration(
            amount,
            reserve_in,
            reserve_out,
        ) {
            Ok(v) => v,
            Err(e) => {
                return Err(e);
            },
        };
        let minted = match crate::math::checked_add(swap, bought) {
            Some(v) => v,
            None => {
                return Err(Error::Overflow);
            },
        };
        if self.total > u128::MAX - minted {
            return Err(Error::Overflow);
        }
        let cur = self.get_liquidity(sender);
        if cur > u128::MAX - minted {
            return Err(Error::Overflow);
        }
        let saved = ledger.duplicate();
        match ledger.transfer_from_single(sender, self.account, token_id, amount) {
            Err(e) => {
                return Err(e);
            },
            Ok(()) => {},
        }
        if amount < swap {
            *ledger = saved;
            return Err(Error::Overflow);
        }
        let ghost pst0 = self.st();
        self.total = self.total + minted;
        upsert_share(&mut self.shares, sender, cur + minted);
        proof {
            let expected = PoolSt {
                total: (pst0.total + minted) as u128,
                shares: pst0.shares.insert(sender, (pst0.share_of(sender) + minted) as u128),
                ..pst0
            };
            assert(self.st().shares =~= expected.shares);
            assert(self.st() =~= expected);
        }
        Ok(())
    }

    /// Redeem `share_percent` percent of the caller's liquidity share in
    /// both assets at the live reserves.
    pub fn withdraw(&mut self, ledger: &mut Ledger, sender: u64, share_percent: u32) -> (r: Result<
        (),
        Error,
    >)
        requires
            old(self).wf(),
            old(ledger).wf(),
        ensures
            final(self).wf(),
            final(ledger).wf(),
            match r {
                Ok(()) => old(self).st().withdraw_tr(old(ledger).st(), sender, share_percent)
                    == Ok::<(PoolSt, LedgerSt), Error>((final(self).st(), final(ledger).st())),
                Err(e) => final(self).st() == old(self).st() && final(ledger).st() == old(
                    ledger,
                ).st() && old(self).st().withdraw_tr(old(ledger).st(), sender, share_percent)
                    == Err::<(PoolSt, LedgerSt), Error>(e),
            },
    {
        if !self.initialized {
            return Err(Error::Uninitialized);
        }
        if share_percent == 0 || share_percent > 100 {
            return Err(Error::InvalidShare);
        }
        let reserve_a = match ledger.balance_of(self.account, self.token_a) {
            Ok(v) => v,
            Err(e) => {
                return Err(e);
            },
        };
        let reserve_b = match ledger.balance_of(self.account, self.token_b) {
            Ok(v) => v,
            Err(e) => {
                return Err(e);
            },
        };
        let cur = self.get_liquidity(sender);
        let share = Fraction::from_percent(share_percent).combine(
            Fraction::from_rational(cur, self.total),
        );
        let amount_a = share.apply(reserve_a);
        let amount_b = share.apply(reserve_b);
        let burn = share.apply(self.total);
        if self.total < burn {
            return Err(Error::Overflow);
        }
        if cur < burn {
            return Err(Error::Overflow);
        }
        let saved = ledger.duplicate();
        match ledger.transfer(self.account, sender, self.token_a, amount_a) {
            Err(e) => {
                return Err(e);
            },
            Ok(()) => {},
        }
        match ledger.transfer(self.account, sender, self.token_b, amount_b) {
            Err(e) => {
                *ledger = saved;
                return Err(e);
            },
            Ok(()) => {},
        }
        let ghost pst0 = self.st();
        self.total = self.total - burn;
        upsert_share(&mut self.shares, sender, cur - burn);
        proof {
            let expected = PoolSt {
                total: (pst0.total - burn) as u128,
                shares: pst0.shares.insert(sender, (pst0.share_of(sender) - burn) as u128),
                ..pst0
            };
            assert(self.st().shares =~= expected.shares);
            assert(self.st() =~= expected);
        }
        Ok(())
    }

    /// Redeem `share_percent` percent of the caller's liquidity share, paid
    /// entirely in `token_id`: the paired asset's portion is swapped into
    /// `token_id` against the post-removal reserves.
    pub fn withdraw_single_token(
        &mut self,
        ledger: &mut Ledger,
        sender: u64,
        token_id: u32,
        share_percent: u32,
    ) -> (r: Result<(), Error>)
        requires
            old(self).wf(),
            old(ledger).wf(),
        ensures
            final(self).wf(),
            final(ledger).wf(),
            match r {
                Ok(()) => old(self).st().withdraw_single_token_tr(
                    old(ledger).st(),
                    sender,
                    token_id,
                    share_percent,
                ) == Ok::<(PoolSt, LedgerSt), Error>((final(self).st(), final(ledger).st())),
                Err(e) => final(self).st() == old(self).st() && final(ledger).st() == old(
                    ledger,
                ).st() && old(self).st().withdraw_single_token_tr(
                    old(ledger).st(),
                    sender,
                    token_id,
                    share_percent,
                ) == Err::<(PoolSt, LedgerSt), Error>(e),
            },
    {
        if !self.initialized {
            return Err(Error::Uninitialized);
        }
        if share_percent == 0 || share_percent > 100 {
            return Err(Error::InvalidShare);
        }
        let cur = self.get_liquidity(sender);
        let share = Fraction::from_percent(share_percent).combine(
            Fraction::from_rational(cur, self.total),
        );
        if share.is_zero() {
            return Err(Error::NoLiquidityToWithdraw);
        }
        let other = if token_id == self.token_a {
            self.token_b
        } else if token_id == self.token_b {
            self.token_a
        } else {
            return Err(Error::WrongTokenId);
        };
        let reserve_own = match ledger.balance_of(self.account, token_id) {
            Ok(v) => v,
            Err(e) => {
                return Err(e);
            },
        };
        let reserve_other = match ledger.balance_of(self.account, other) {
            Ok(v) => v,
            Err(e) => {
                return Err(e);
            },
        };
        let amount_own = share.apply(reserve_own);
        let amount_other = share.apply(reserve_other);
        if reserve_own < amount_own {
            return Err(Error::Overflow);
        }
        let bought = match self.price(amount_other, reserve_other, reserve_own - amount_own) {
            Ok(v) => v,
            Err(e) => {
                return Err(e);
            },
        };
        let burn = share.apply(self.total);
        if self.total < burn {
            return Err(Error::Overflow);
        }
        if cur < burn {
            return Err(Error::Overflow);
        }
        let out = match crate::math::checked_add(amount_own, bought) {
            Some(v) => v,
            None => {
                return Err(Error::Overflow);
            },
        };
        match ledger.transfer(self.account, sender, token_id, out) {
            Err(e) => {
                return Err(e);
            },
            Ok(()) => {},
        }
        let ghost pst0 = self.st();
        self.total = self.total - burn;
        upsert_share(&mut self.shares, sender, cur - burn);
        proof {
            let expected = PoolSt {
                total: (pst0.total - burn) as u128,
                shares: pst0.shares.insert(sender, (pst0.share_of(sender) - burn) as u128),
                ..pst0
            };
            assert(self.st().shares =~= expected.shares);
            assert(self.st() =~= expected);
        }
        Ok(())
    }
}

// ---------------------------------------------------------------------------
// Laws of the pricing and withdrawal arithmetic
// ---------------------------------------------------------------------------

/// The fee strictly reduces the swap output below the fee-free spot value:
/// for a retention fraction below 1 and positive trade and reserves,
/// `price(x, r_in, r_out) < x * r_out / r_in`, stated without division as
/// `price * r_in < x * r_out`.
pub proof fn lemma_price_below_spot(fee: int, amount: int, reserve_in: int, reserve_out: int)
    requires
        0 <= fee < ACCURACY as int,
        amount >= 1,
        reserve_in >= 1,
        reserve_out >= 1,
    ensures
        price_value(fee, amount, reserve_in, reserve_out) * reserve_in < amount * reserve_out,
{
    let eff = scale_parts(fee, amount);
    crate::fraction::lemma_scale_parts_bounds(fee, amount);
    let den = reserve_in + eff;
    let out = eff * reserve_out / den;
    assert(eff * reserve_out >= 0) by (nonlinear_arith)
        requires
            eff >= 0,
            reserve_out >= 0;
    vstd::arithmetic::div_mod::lemma_fundamental_div_mod(eff * reserve_out, den);
    assert(out >= 0) by {
        vstd::arithmetic::div_mod::lemma_div_pos_is_pos(eff * reserve_out, den);
    }
    if out == 0 {
        assert(0 * reserve_in == 0) by (nonlinear_arith);
        assert(amount * reserve_out >= 1) by (nonlinear_arith)
            requires
                amount >= 1,
                reserve_out >= 1;
    } else {
        // out * den <= eff * reserve_out, so out * reserve_in fits below
        // eff * reserve_out - out * eff, which is strictly below the spot.
        assert(out * den <= eff * reserve_out) by (nonlinear_arith)
            requires
                eff * reserve_out == den * out + (eff * reserve_out) % den,
                (eff * reserve_out) % den >= 0;
        assert(eff >= 1) by {
            if eff == 0 {
                assert(eff * reserve_out == 0) by (nonlinear_arith)
                    requires
                        eff == 0;
                assert(out == 0) by {
                    vstd::arithmetic::div_mod::lemma_div_of0(den);
                }
            }
        }
        assert(out * reserve_in < amount * reserve_out) by (nonlinear_arith)
            requires
                out * den <= eff * reserve_out,
                den == reserve_in + eff,
                out >= 1,
                eff >= 1,
                eff <= amount,
                reserve_in >= 1,
                reserve_out >= 1;
    }
}

/// Withdrawing 100 percent as the sole liquidity provider succeeds, drains
/// both reserves to exactly zero, pays the entire reserves to the provider,
/// and burns all liquidity.
pub proof fn lemma_withdraw_all_sole_provider(p: PoolSt, l: LedgerSt, sender: u64)
    requires
        p.initialized,
        p.token_a != p.token_b,
        sender != 0,
        sender != p.account,
        p.share_of(sender) == p.total,
        p.total >= 1,
        l.token_live(p.token_a),
        l.token_live(p.token_b),
        l.balance_of(p.account, p.token_a) >= 1,
        l.balance_of(p.account, p.token_b) >= 1,
        l.balance_of(sender, p.token_a) + l.balance_of(p.account, p.token_a) <= u128::MAX,
        l.balance_of(sender, p.token_b) + l.balance_of(p.account, p.token_b) <= u128::MAX,
    ensures
        p.withdraw_tr(l, sender, 100) is Ok,
        ({
            let (p3, l3) = p.withdraw_tr(l, sender, 100)->Ok_0;
            &&& l3.balance_of(p.account, p.token_a) == 0
            &&& l3.balance_of(p.account, p.token_b) == 0
            &&& l3.balance_of(sender, p.token_a) == l.balance_of(sender, p.token_a)
                + l.balance_of(p.account, p.token_a)
            &&& l3.balance_of(sender, p.token_b) == l.balance_of(sender, p.token_b)
                + l.balance_of(p.account, p.token_b)
            &&& p3.total == 0
            &&& p3.share_of(sender) == 0
        }),
{
    let acc = ACCURACY as int;
    let reserve_a = l.balance_of(p.account, p.token_a);
    let reserve_b = l.balance_of(p.account, p.token_b);
    // The sole provider's withdrawal share of 100 percent is the whole.
    assert(from_percent_parts(100) == acc);
    crate::fraction::lemma_from_rational_self(p.total as int);
    let share = p.withdraw_share(sender, 100);
    assert(share == acc * acc / acc);
    assert(share == acc) by {
        vstd::arithmetic::div_mod::lemma_div_multiples_vanish(acc, acc);
    }
    crate::fraction::lemma_scale_parts_full(reserve_a as int);
    crate::fraction::lemma_scale_parts_full(reserve_b as int);
    crate::fraction::lemma_scale_parts_full(p.total as int);
    let p2 = p.decrease_liquidity_tr(sender, p.total)->Ok_0;
    let l2 = l.transfer_tr(p.account, sender, p.token_a, reserve_a)->Ok_0;
    assert(l2.balance_of(p.account, p.token_a) == 0);
    assert(l2.balance_of(p.account, p.token_b) == reserve_b);
    assert(l2.balance_of(sender, p.token_b) == l.balance_of(sender, p.token_b));
    let l3 = l2.transfer_tr(p.account, sender, p.token_b, reserve_b)->Ok_0;
    assert(p.withdraw_tr(l, sender, 100) == Ok::<(PoolSt, LedgerSt), Error>((p2, l3)));
}

/// The round trip of the sole liquidity provider: depositing and then
/// immediately withdrawing 100 percent returns exactly the pre-deposit
/// reserves plus the deposited amounts — the provider ends with their
/// pre-deposit balance plus the pre-deposit reserves of each asset, the
/// reserves drain to zero, and all liquidity is burned. No unit is lost to
/// truncation.
pub proof fn lemma_sole_provider_round_trip(
    p: PoolSt,
    l: LedgerSt,
    sender: u64,
    token_id: u32,
    amount: u128,
)
    requires
        p.token_a != p.token_b,
        sender != 0,
        p.share_of(sender) == p.total,
        l.balance_of(sender, p.token_a) + l.balance_of(p.account, p.token_a) <= u128::MAX,
        l.balance_of(sender, p.token_b) + l.balance_of(p.account, p.token_b) <= u128::MAX,
        p.deposit_tr(l, sender, token_id, amount) is Ok,
    ensures
        ({
            let (p2, l2) = p.deposit_tr(l, sender, token_id, amount)->Ok_0;
            &&& p2.withdraw_tr(l2, sender, 100) is Ok
            &&& {
                let (p3, l3) = p2.withdraw_tr(l2, sender, 100)->Ok_0;
                &&& l3.balance_of(p.account, p.token_a) == 0
                &&& l3.balance_of(p.account, p.token_b) == 0
                &&& l3.balance_of(sender, p.token_a) == l.balance_of(sender, p.token_a)
                    + l.balance_of(p.account, p.token_a)
                &&& l3.balance_of(sender, p.token_b) == l.balance_of(sender, p.token_b)
                    + l.balance_of(p.account, p.token_b)
                &&& p3.total == 0
                &&& p3.share_of(sender) == 0
            }
        }),
{
    let other = p.paired_token(token_id);
    let reserve_in = l.balance_of(p.account, token_id);
    let reserve_out = l.balance_of(p.account, other);
    let second = (amount as int * reserve_out as int / (reserve_in as int)) as u128;
    let minted = (amount + second) as u128;
    let p2 = p.increase_liquidity_tr(sender, minted)->Ok_0;
    let tokens = seq![token_id, other];
    let amounts = seq![amount, second];
    assert(tokens[0] == token_id && tokens[1] == other);
    assert(amounts[0] == amount && amounts[1] == second);
    assert(tokens.skip(1) =~= seq![other]);
    assert(amounts.skip(1) =~= seq![second]);
    assert(tokens.skip(1).skip(1) =~= Seq::<u32>::empty());
    assert(amounts.skip(1).skip(1) =~= Seq::<u128>::empty());
    // Unfold the two batch steps of the deposit's transfer.
    reveal_with_fuel(LedgerSt::batch_steps, 4);
    let l1 = l.step_transfer(sender, p.account, token_id, amount)->Ok_0;
    let l2 = l1.step_transfer(sender, p.account, other, second)->Ok_0;
    assert(l.transfer_from_batch_tr(sender, p.account, tokens, amounts) == Ok::<
        LedgerSt,
        Error,
    >(l2));
    assert(p.deposit_tr(l, sender, token_id, amount) == Ok::<(PoolSt, LedgerSt), Error>((p2, l2)));
    // The deposit's checks give positivity of both transferred amounts and
    // distinctness of sender and pool account.
    assert(amount >= 1 && second >= 1);
    assert(sender != p.account);
    // Post-deposit reserves and provider balances, per asset of the pair.
    assert(l2.balance_of(p.account, token_id) == reserve_in + amount);
    assert(l2.balance_of(p.account, other) == reserve_out + second);
    assert(l2.balance_of(sender, token_id) == l.balance_of(sender, token_id) - amount);
    assert(l2.balance_of(sender, other) == l.balance_of(sender, other) - second);
    assert(p2.share_of(sender) == p2.total);
    assert(p2.total >= 1);
    lemma_withdraw_all_sole_provider(p2, l2, sender);
}

} // verus!

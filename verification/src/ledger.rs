use vstd::prelude::*;
use crate::errors::Error;

verus! {

// ---------------------------------------------------------------------------
// Stored entries
//
// The ledger keeps its three tables as vectors of entries with unique keys.
// The account number 0 is the null sentinel: it means "no account" and can
// never receive a transfer.
// ---------------------------------------------------------------------------

/// Total supply of one initialized asset; `amount` is never zero.
#[derive(Clone, Copy, Debug)]
pub struct SupplyEntry {
    pub token: u32,
    pub amount: u128,
}

/// Balance of one account in one asset.
#[derive(Clone, Copy, Debug)]
pub struct BalanceEntry {
    pub account: u64,
    pub token: u32,
    pub amount: u128,
}

/// Whether `operator` may move `owner`'s funds.
#[derive(Clone, Copy, Debug)]
pub struct ApprovalEntry {
    pub owner: u64,
    pub operator: u64,
    pub approved: bool,
}

/// The supply recorded for `t`, or 0 when `t` has no entry.
pub open spec fn supply_in(s: Seq<SupplyEntry>, t: u32) -> u128
    decreases s.len(),
{
    if s.len() == 0 {
        0
    } else if s.last().token == t {
        s.last().amount
    } else {
        supply_in(s.drop_last(), t)
    }
}

/// The balance recorded for `(a, t)`, or 0 when there is no entry.
pub open spec fn balance_in(s: Seq<BalanceEntry>, a: u64, t: u32) -> u128
    decreases s.len(),
{
    if s.len() == 0 {
        0
    } else if s.last().account == a && s.last().token == t {
        s.last().amount
    } else {
        balance_in(s.drop_last(), a, t)
    }
}

/// The approval recorded for `(o, p)`, or false when there is no entry.
pub open spec fn approval_in(s: Seq<ApprovalEntry>, o: u64, p: u64) -> bool
    decreases s.len(),
{
    if s.len() == 0 {
        false
    } else if s.last().owner == o && s.last().operator == p {
        s.last().approved
    } else {
        approval_in(s.drop_last(), o, p)
    }
}

/// The sum of all recorded balances of asset `t`, over every account.
pub open spec fn balance_sum(s: Seq<BalanceEntry>, t: u32) -> int
    decreases s.len(),
{
    if s.len() == 0 {
        0
    } else {
        balance_sum(s.drop_last(), t) + (if s.last().token == t {
            s.last().amount as int
        } else {
            0int
        })
    }
}

/// No two supply entries name the same asset.
pub open spec fn supplies_unique(s: Seq<SupplyEntry>) -> bool {
    forall|i: int, j: int|
        0 <= i < j < s.len() ==> s[i].token != s[j].token
}

/// No two balance entries name the same account and asset.
pub open spec fn balances_unique(s: Seq<BalanceEntry>) -> bool {
    forall|i: int, j: int|
        0 <= i < j < s.len() ==> !(s[i].account == s[j].account && s[i].token
            == s[j].token)
}

/// No two approval entries name the same owner and operator.
pub open spec fn approvals_unique(s: Seq<ApprovalEntry>) -> bool {
    forall|i: int, j: int|
        0 <= i < j < s.len() ==> !(s[i].owner == s[j].owner && s[i].operator
            == s[j].operator)
}

// ---------------------------------------------------------------------------
// Lemmas about lookups and sums
// ---------------------------------------------------------------------------

/// With unique keys, the lookup returns the amount of the entry at `i`.
proof fn lemma_supply_in_present(s: Seq<SupplyEntry>, i: int)
    requires
        supplies_unique(s),
        0 <= i < s.len(),
    ensures
        supply_in(s, s[i].token) == s[i].amount,
    decreases s.len(),
{
    if i == s.len() - 1 {
    } else {
        assert(s.drop_last() =~= s.subrange(0, s.len() - 1));
        lemma_supply_in_present(s.drop_last(), i);
    }
}

/// When no entry names `t`, the lookup returns 0.
proof fn lemma_supply_in_absent(s: Seq<SupplyEntry>, t: u32)
    requires
        forall|j: int| 0 <= j < s.len() ==> s[j].token != t,
    ensures
        supply_in(s, t) == 0,
    decreases s.len(),
{
    if s.len() > 0 {
        lemma_supply_in_absent(s.drop_last(), t);
    }
}

/// With unique keys, the lookup returns the amount of the entry at `i`.
proof fn lemma_balance_in_present(s: Seq<BalanceEntry>, i: int)
    requires
        balances_unique(s),
        0 <= i < s.len(),
    ensures
        balance_in(s, s[i].account, s[i].token) == s[i].amount,
    decreases s.len(),
{
    if i == s.len() - 1 {
    } else {
        lemma_balance_in_present(s.drop_last(), i);
    }
}

/// When no entry names `(a, t)`, the lookup returns 0.
proof fn lemma_balance_in_absent(s: Seq<BalanceEntry>, a: u64, t: u32)
    requires
        forall|j: int|
            0 <= j < s.len() ==> !(s[j].account == a && s[j].token == t),
    ensures
        balance_in(s, a, t) == 0,
    decreases s.len(),
{
    if s.len() > 0 {
        lemma_balance_in_absent(s.drop_last(), a, t);
    }
}

/// With unique keys, the lookup returns the flag of the entry at `i`.
proof fn lemma_approval_in_present(s: Seq<ApprovalEntry>, i: int)
    requires
        approvals_unique(s),
        0 <= i < s.len(),
    ensures
        approval_in(s, s[i].owner, s[i].operator) == s[i].approved,
    decreases s.len(),
{
    if i == s.len() - 1 {
    } else {
        lemma_approval_in_present(s.drop_last(), i);
    }
}

/// When no entry names `(o, p)`, the lookup returns false.
proof fn lemma_approval_in_absent(s: Seq<ApprovalEntry>, o: u64, p: u64)
    requires
        forall|j: int|
            0 <= j < s.len() ==> !(s[j].owner == o && s[j].operator == p),
    ensures
        !approval_in(s, o, p),
    decreases s.len(),
{
    if s.len() > 0 {
        lemma_approval_in_absent(s.drop_last(), o, p);
    }
}

/// Changing the amount of the entry at `i` changes every lookup of its key to
/// the new amount and no other lookup.
proof fn lemma_balance_in_update(s: Seq<BalanceEntry>, i: int, v: u128, a: u64, t: u32)
    requires
        balances_unique(s),
        0 <= i < s.len(),
    ensures
        balance_in(s.update(i, BalanceEntry { amount: v, ..s[i] }), a, t)
            == if s[i].account == a && s[i].token == t {
                v
            } else {
                balance_in(s, a, t)
            },
    decreases s.len(),
{
    let s2 = s.update(i, BalanceEntry { amount: v, ..s[i] });
    if i == s.len() - 1 {
        assert(s2.drop_last() =~= s.drop_last());
    } else {
        assert(s2.drop_last() =~= s.drop_last().update(
            i,
            BalanceEntry { amount: v, ..s[i] },
        ));
        lemma_balance_in_update(s.drop_last(), i, v, a, t);
    }
}

/// Changing the amount of the entry at `i` moves every per-asset sum by the
/// difference on that entry's asset and leaves the other sums alone.
proof fn lemma_balance_sum_update(s: Seq<BalanceEntry>, i: int, v: u128, t: u32)
    requires
        0 <= i < s.len(),
    ensures
        balance_sum(s.update(i, BalanceEntry { amount: v, ..s[i] }), t)
            == balance_sum(s, t) + (if s[i].token == t {
                v as int - s[i].amount as int
            } else {
                0int
            }),
    decreases s.len(),
{
    let s2 = s.update(i, BalanceEntry { amount: v, ..s[i] });
    if i == s.len() - 1 {
        assert(s2.drop_last() =~= s.drop_last());
    } else {
        assert(s2.drop_last() =~= s.drop_last().update(
            i,
            BalanceEntry { amount: v, ..s[i] },
        ));
        lemma_balance_sum_update(s.drop_last(), i, v, t);
    }
}

/// Appending an entry extends the lookup and the sums accordingly.
proof fn lemma_balance_push(s: Seq<BalanceEntry>, e: BalanceEntry, a: u64, t: u32)
    ensures
        balance_in(s.push(e), a, t) == if e.account == a && e.token == t {
            e.amount
        } else {
            balance_in(s, a, t)
        },
        balance_sum(s.push(e), t) == balance_sum(s, t) + (if e.token == t {
            e.amount as int
        } else {
            0int
        }),
{
    assert(s.push(e).drop_last() =~= s);
}

/// Appending a supply entry extends the lookup accordingly.
proof fn lemma_supply_push(s: Seq<SupplyEntry>, e: SupplyEntry, t: u32)
    ensures
        supply_in(s.push(e), t) == if e.token == t {
            e.amount
        } else {
            supply_in(s, t)
        },
{
    assert(s.push(e).drop_last() =~= s);
}

/// Appending an approval entry extends the lookup accordingly.
proof fn lemma_approval_push(s: Seq<ApprovalEntry>, e: ApprovalEntry, o: u64, p: u64)
    ensures
        approval_in(s.push(e), o, p) == if e.owner == o && e.operator == p {
            e.approved
        } else {
            approval_in(s, o, p)
        },
{
    assert(s.push(e).drop_last() =~= s);
}

/// Changing the flag of the entry at `i` changes every lookup of its key to
/// the new flag and no other lookup.
proof fn lemma_approval_in_update(s: Seq<ApprovalEntry>, i: int, v: bool, o: u64, p: u64)
    requires
        approvals_unique(s),
        0 <= i < s.len(),
    ensures
        approval_in(s.update(i, ApprovalEntry { approved: v, ..s[i] }), o, p)
            == if s[i].owner == o && s[i].operator == p {
                v
            } else {
                approval_in(s, o, p)
            },
    decreases s.len(),
{
    let s2 = s.update(i, ApprovalEntry { approved: v, ..s[i] });
    if i == s.len() - 1 {
        assert(s2.drop_last() =~= s.drop_last());
    } else {
        assert(s2.drop_last() =~= s.drop_last().update(
            i,
            ApprovalEntry { approved: v, ..s[i] },
        ));
        lemma_approval_in_update(s.drop_last(), i, v, o, p);
    }
}

/// A nonzero lookup result names an actual entry, so with all supply entries
/// nonzero a zero lookup means `t` has no entry at all.
proof fn lemma_supply_in_zero_absent(s: Seq<SupplyEntry>, t: u32)
    requires
        supply_in(s, t) == 0,
        forall|i: int| 0 <= i < s.len() ==> s[i].amount != 0,
    ensures
        forall|i: int| 0 <= i < s.len() ==> s[i].token != t,
    decreases s.len(),
{
    if s.len() > 0 {
        assert(s.last().token != t);
        lemma_supply_in_zero_absent(s.drop_last(), t);
        assert forall|i: int| 0 <= i < s.len() implies s[i].token != t by {
            if i < s.len() - 1 {
                assert(s.drop_last()[i].token != t);
            }
        }
    }
}


// ---------------------------------------------------------------------------
// The abstract ledger state and its transitions
//
// Every public operation's contract relates the ledger before and after the
// call through one of the transition functions below: the call returns `Ok`
// exactly when the transition does, with the state the transition yields, and
// returns the transition's error, with the state unchanged, otherwise.
// ---------------------------------------------------------------------------

/// The ledger as mathematics: total maps from keys to recorded values.
///
/// A supply of 0 means the asset is uninitialized; balances and approvals
/// default to 0 and false.
#[verifier::ext_equal]
pub struct LedgerSt {
    /// Units per whole token: supplies are scaled by this on initialization.
    pub scale: u128,
    pub supplies: Map<u32, u128>,
    pub balances: Map<(u64, u32), u128>,
    pub approvals: Map<(u64, u64), bool>,
}

impl LedgerSt {
    /// An asset is live once its total supply is nonzero.
    pub open spec fn token_live(self, t: u32) -> bool {
        self.supplies[t] != 0
    }

    /// The balance of `a` in asset `t`.
    pub open spec fn balance_of(self, a: u64, t: u32) -> u128 {
        self.balances[(a, t)]
    }

    /// Whether `p` may move `o`'s funds.
    pub open spec fn approved(self, o: u64, p: u64) -> bool {
        self.approvals[(o, p)]
    }

    /// Debit `from` and credit `to`, or report why not. Assumes the caller
    /// has already ruled out `from == to`.
    pub open spec fn step_transfer(self, from: u64, to: u64, token: u32, amount: u128) -> Result<
        LedgerSt,
        Error,
    > {
        if self.balance_of(from, token) < amount {
            Err(Error::InsufficientFunds)
        } else if self.balance_of(to, token) + amount > u128::MAX {
            Err(Error::Overflow)
        } else {
            Ok(
                LedgerSt {
                    balances: self.balances.insert(
                        (from, token),
                        (self.balance_of(from, token) - amount) as u128,
                    ).insert(
                        (to, token),
                        (self.balance_of(to, token) + amount) as u128,
                    ),
                    ..self
                },
            )
        }
    }

    /// The unauthorized transfer primitive: no approval is consulted, so this
    /// must only be reachable from code that already holds the right to move
    /// `from`'s funds.
    pub open spec fn transfer_tr(self, from: u64, to: u64, token: u32, amount: u128) -> Result<
        LedgerSt,
        Error,
    > {
        if !self.token_live(token) {
            Err(Error::Uninitialized)
        } else if amount == 0 {
            Err(Error::ZeroAmount)
        } else if to == 0 {
            Err(Error::ZeroAddress)
        } else if from == to {
            Err(Error::SelfTransfer)
        } else {
            self.step_transfer(from, to, token, amount)
        }
    }

    /// An operator-authorized single transfer.
    pub open spec fn transfer_from_single_tr(
        self,
        from: u64,
        to: u64,
        token: u32,
        amount: u128,
    ) -> Result<LedgerSt, Error> {
        if !self.token_live(token) {
            Err(Error::Uninitialized)
        } else if amount == 0 {
            Err(Error::ZeroAmount)
        } else if to == 0 {
            Err(Error::ZeroAddress)
        } else if from == to {
            Err(Error::SelfTransfer)
        } else if !self.approved(from, to) {
            Err(Error::NotApproved)
        } else {
            self.step_transfer(from, to, token, amount)
        }
    }

    /// The per-pair loop of a batch transfer: each pair sees the balances
    /// left by the pairs before it.
    pub open spec fn batch_steps(
        self,
        from: u64,
        to: u64,
        tokens: Seq<u32>,
        amounts: Seq<u128>,
    ) -> Result<LedgerSt, Error>
        decreases tokens.len(),
    {
        if tokens.len() == 0 {
            Ok(self)
        } else {
            let t = tokens[0];
            let a = amounts[0];
            if !self.token_live(t) {
                Err(Error::Uninitialized)
            } else if a == 0 {
                Err(Error::ZeroAmount)
            } else {
                match self.step_transfer(from, to, t, a) {
                    Ok(next) => next.batch_steps(from, to, tokens.skip(1), amounts.skip(1)),
                    Err(e) => Err(e),
                }
            }
        }
    }

    /// An operator-authorized batch transfer: all pairs or none.
    pub open spec fn transfer_from_batch_tr(
        self,
        from: u64,
        to: u64,
        tokens: Seq<u32>,
        amounts: Seq<u128>,
    ) -> Result<LedgerSt, Error> {
        if tokens.len() != amounts.len() {
            Err(Error::InsufficientData)
        } else if to == 0 {
            Err(Error::ZeroAddress)
        } else if from == to {
            Err(Error::SelfTransfer)
        } else if !self.approved(from, to) {
            Err(Error::NotApproved)
        } else {
            self.batch_steps(from, to, tokens, amounts)
        }
    }

    /// The per-pair loop of asset initialization: scale the supply, refuse
    /// assets that are already live, credit the whole supply to `who`.
    pub open spec fn init_steps(self, who: u64, tokens: Seq<u32>, supplies: Seq<u128>) -> Result<
        LedgerSt,
        Error,
    >
        decreases tokens.len(),
    {
        if tokens.len() == 0 {
            Ok(self)
        } else {
            let t = tokens[0];
            let scaled = supplies[0] * self.scale;
            if scaled > u128::MAX {
                Err(Error::Overflow)
            } else if self.token_live(t) {
                Err(Error::AlreadyInitialized)
            } else if scaled == 0 {
                Err(Error::ZeroSupply)
            } else {
                let next = LedgerSt {
                    supplies: self.supplies.insert(t, scaled as u128),
                    balances: self.balances.insert((who, t), scaled as u128),
                    ..self
                };
                next.init_steps(who, tokens.skip(1), supplies.skip(1))
            }
        }
    }

    /// Initialize a batch of assets: all or none.
    pub open spec fn init_tr(self, who: u64, tokens: Seq<u32>, supplies: Seq<u128>) -> Result<
        LedgerSt,
        Error,
    > {
        if tokens.len() != supplies.len() {
            Err(Error::InsufficientData)
        } else {
            self.init_steps(who, tokens, supplies)
        }
    }

    /// Record an approval; an unconditional, idempotent set.
    pub open spec fn set_approval_tr(self, owner: u64, operator: u64, approved: bool) -> LedgerSt {
        LedgerSt { approvals: self.approvals.insert((owner, operator), approved), ..self }
    }
}

// ---------------------------------------------------------------------------
// The concrete ledger
// ---------------------------------------------------------------------------

/// The token ledger: total supplies, balances and operator approvals for any
/// number of fungible asset classes.
pub struct Ledger {
    /// Units per whole token, `10 ^ decimals`.
    scale: u128,
    supplies: Vec<SupplyEntry>,
    balances: Vec<BalanceEntry>,
    approvals: Vec<ApprovalEntry>,
}

/// `10 ^ n`.
pub open spec fn pow10(n: nat) -> int
    decreases n,
{
    if n == 0 {
        1
    } else {
        10 * pow10((n - 1) as nat)
    }
}

proof fn lemma_pow10_bounds(n: nat)
    requires
        n <= 38,
    ensures
        1 <= pow10(n) <= pow10(38),
        pow10(38) < u128::MAX,
    decreases 38 - n,
{
    if n < 38 {
        lemma_pow10_bounds(n + 1);
    } else {
        assert(pow10(38) == 100_000_000_000_000_000_000_000_000_000_000_000_000int) by {
            reveal_with_fuel(pow10, 40);
        }
    }
}

/// The ledger uninitialized: no assets, no balances, no approvals.
pub open spec fn initial_ledger(scale: u128) -> LedgerSt {
    LedgerSt {
        scale: scale,
        supplies: Map::new(|t: u32| true, |t: u32| 0u128),
        balances: Map::new(|k: (u64, u32)| true, |k: (u64, u32)| 0u128),
        approvals: Map::new(|k: (u64, u64)| true, |k: (u64, u64)| false),
    }
}

impl Ledger {
    /// The ledger as mathematics.
    pub closed spec fn st(self) -> LedgerSt {
        LedgerSt {
            scale: self.scale,
            supplies: Map::new(|t: u32| true, |t: u32| supply_in(self.supplies@, t)),
            balances: Map::new(
                |k: (u64, u32)| true,
                |k: (u64, u32)| balance_in(self.balances@, k.0, k.1),
            ),
            approvals: Map::new(
                |k: (u64, u64)| true,
                |k: (u64, u64)| approval_in(self.approvals@, k.0, k.1),
            ),
        }
    }

    /// Internal well-formedness: unique keys, live supply entries, a positive
    /// scale — and conservation: for every asset, the balances over all
    /// accounts sum to exactly the recorded total supply.
    pub closed spec fn wf(self) -> bool {
        &&& supplies_unique(self.supplies@)
        &&& balances_unique(self.balances@)
        &&& approvals_unique(self.approvals@)
        &&& (forall|i: int| 0 <= i < self.supplies@.len() ==> self.supplies@[i].amount != 0)
        &&& (forall|t: u32|
            #[trigger] balance_sum(self.balances@, t) == supply_in(self.supplies@, t))
        &&& self.scale >= 1
    }

    /// Conservation, stated on the abstract maps: the recorded balances of
    /// every asset sum to its recorded supply. `holders` lists the accounts
    /// carrying an entry, each exactly once.
    pub proof fn lemma_conservation(self, t: u32) -> (holders: Seq<(u64, u128)>)
        requires
            self.wf(),
        ensures
            sum_amounts(holders) == self.st().supplies[t],
            forall|i: int, j: int|
                0 <= i < j < holders.len() ==> holders[i].0 != holders[j].0,
            forall|i: int|
                0 <= i < holders.len() ==> #[trigger] holders[i].1 == self.st().balance_of(
                    holders[i].0,
                    t,
                ),
    {
        lemma_holders(self.balances@, t);
        let hs = holders_of(self.balances@, t);
        assert forall|i: int|
            0 <= i < hs.len() implies #[trigger] hs[i].1 == self.st().balance_of(hs[i].0, t) by {
            assert(balance_in(self.balances@, hs[i].0, t) == hs[i].1);
        }
        hs
    }
}

/// The sum of the amounts in an account/amount list.
pub open spec fn sum_amounts(s: Seq<(u64, u128)>) -> int
    decreases s.len(),
{
    if s.len() == 0 {
        0
    } else {
        sum_amounts(s.drop_last()) + s.last().1
    }
}

/// The accounts holding asset `t`, with their balances.
spec fn holders_of(s: Seq<BalanceEntry>, t: u32) -> Seq<(u64, u128)>
    decreases s.len(),
{
    if s.len() == 0 {
        Seq::empty()
    } else if s.last().token == t {
        holders_of(s.drop_last(), t).push((s.last().account, s.last().amount))
    } else {
        holders_of(s.drop_last(), t)
    }
}

proof fn lemma_holders(s: Seq<BalanceEntry>, t: u32)
    requires
        balances_unique(s),
    ensures
        sum_amounts(holders_of(s, t)) == balance_sum(s, t),
        forall|i: int, j: int|
            0 <= i < j < holders_of(s, t).len() ==> holders_of(s, t)[i].0 != holders_of(s, t)[j].0,
        forall|i: int|
            0 <= i < holders_of(s, t).len() ==> #[trigger] holders_of(s, t)[i].1 == balance_in(
                s,
                holders_of(s, t)[i].0,
                t,
            ),
    decreases s.len(),
{
    if s.len() > 0 {
        lemma_holders(s.drop_last(), t);
        let hs = holders_of(s, t);
        let prev = holders_of(s.drop_last(), t);
        if s.last().token == t {
            assert(hs.drop_last() =~= prev);
            // The appended account has no earlier entry of asset t, so it is
            // fresh in the holder list and its lookup hits the last entry.
            assert forall|i: int|
                0 <= i < prev.len() implies prev[i].0 != s.last().account by {
                if prev[i].0 == s.last().account {
                    assert(balance_in(s.drop_last(), s.last().account, t) == prev[i].1);
                    lemma_holder_entry_exists(s.drop_last(), t, i);
                }
            }
            assert forall|i: int|
                0 <= i < hs.len() implies #[trigger] hs[i].1 == balance_in(s, hs[i].0, t) by {
                if i < prev.len() {
                    assert(hs[i] == prev[i]);
                }
            }
        } else {
            assert forall|i: int|
                0 <= i < hs.len() implies #[trigger] hs[i].1 == balance_in(s, hs[i].0, t) by {
                assert(hs[i] == prev[i]);
            }
        }
    }
}

/// Every holder in the list corresponds to an actual balance entry.
proof fn lemma_holder_entry_exists(s: Seq<BalanceEntry>, t: u32, i: int)
    requires
        0 <= i < holders_of(s, t).len(),
    ensures
        exists|j: int|
            0 <= j < s.len() && s[j].account == holders_of(s, t)[i].0 && s[j].token == t,
    decreases s.len(),
{
    if s.len() > 0 {
        let prev = holders_of(s.drop_last(), t);
        if s.last().token == t && i == prev.len() {
            assert(s[s.len() - 1].account == holders_of(s, t)[i].0);
        } else {
            lemma_holder_entry_exists(s.drop_last(), t, i);
            let j = choose|j: int|
                0 <= j < s.drop_last().len() && s.drop_last()[j].account == holders_of(
                    s.drop_last(),
                    t,
                )[i].0 && s.drop_last()[j].token == t;
            assert(s[j].account == holders_of(s, t)[i].0 && s[j].token == t);
        }
    }
}

// ---------------------------------------------------------------------------
// Executable lookups and updates on the entry vectors
// ---------------------------------------------------------------------------

fn find_supply(v: &Vec<SupplyEntry>, t: u32) -> (r: Option<usize>)
    ensures
        match r {
            Some(i) => i < v@.len() && v@[i as int].token == t,
            None => forall|j: int| 0 <= j < v@.len() ==> v@[j].token != t,
        },
{
    let mut i: usize = 0;
    while i < v.len()
        invariant
            i <= v@.len(),
            forall|j: int| 0 <= j < i ==> v@[j].token != t,
        decreases v@.len() - i,
    {
        if v[i].token == t {
            return Some(i);
        }
        i = i + 1;
    }
    None
}

fn find_balance(v: &Vec<BalanceEntry>, a: u64, t: u32) -> (r: Option<usize>)
    ensures
        match r {
            Some(i) => i < v@.len() && v@[i as int].account == a && v@[i as int].token == t,
            None => forall|j: int|
                0 <= j < v@.len() ==> !(v@[j].account == a && v@[j].token == t),
        },
{
    let mut i: usize = 0;
    while i < v.len()
        invariant
            i <= v@.len(),
            forall|j: int| 0 <= j < i ==> !(v@[j].account == a && v@[j].token == t),
        decreases v@.len() - i,
    {
        if v[i].account == a && v[i].token == t {
            return Some(i);
        }
        i = i + 1;
    }
    None
}

fn find_approval(v: &Vec<ApprovalEntry>, o: u64, p: u64) -> (r: Option<usize>)
    ensures
        match r {
            Some(i) => i < v@.len() && v@[i as int].owner == o && v@[i as int].operator == p,
            None => forall|j: int|
                0 <= j < v@.len() ==> !(v@[j].owner == o && v@[j].operator == p),
        },
{
    let mut i: usize = 0;
    while i < v.len()
        invariant
            i <= v@.len(),
            forall|j: int| 0 <= j < i ==> !(v@[j].owner == o && v@[j].operator == p),
        decreases v@.len() - i,
    {
        if v[i].owner == o && v[i].operator == p {
            return Some(i);
        }
        i = i + 1;
    }
    None
}

/// Record `value` as the balance of `(account, token)`, replacing any
/// previous record.
fn upsert_balance(v: &mut Vec<BalanceEntry>, account: u64, token: u32, value: u128)
    requires
        balances_unique(old(v)@),
    ensures
        balances_unique(final(v)@),
        forall|a2: u64, t2: u32|
            #[trigger] balance_in(final(v)@, a2, t2) == (if a2 == account && t2 == token {
                value
            } else {
                balance_in(old(v)@, a2, t2)
            }),
        forall|t2: u32|
            #[trigger] balance_sum(final(v)@, t2) == balance_sum(old(v)@, t2) + (if t2 == token {
                value as int - balance_in(old(v)@, account, token) as int
            } else {
                0int
            }),
{
    let ghost s0 = v@;
    match find_balance(v, account, token) {
        Some(i) => {
            proof {
                lemma_balance_in_present(s0, i as int);
            }
            let e = BalanceEntry { account: account, token: token, amount: value };
            v.set(i, e);
            proof {
                assert(v@ =~= s0.update(i as int, BalanceEntry { amount: value, ..s0[i as int] }));
                assert forall|a2: u64, t2: u32|
                    #[trigger] balance_in(v@, a2, t2) == (if a2 == account && t2 == token {
                        value
                    } else {
                        balance_in(s0, a2, t2)
                    }) by {
                    lemma_balance_in_update(s0, i as int, value, a2, t2);
                }
                assert forall|t2: u32|
                    #[trigger] balance_sum(v@, t2) == balance_sum(s0, t2) + (if t2 == token {
                        value as int - balance_in(s0, account, token) as int
                    } else {
                        0int
                    }) by {
                    lemma_balance_sum_update(s0, i as int, value, t2);
                }
                assert forall|i2: int, j2: int|
                    0 <= i2 < j2 < v@.len() implies !(v@[i2].account == v@[j2].account
                    && v@[i2].token == v@[j2].token) by {
                    assert(v@[i2].account == s0[i2].account && v@[i2].token == s0[i2].token);
                    assert(v@[j2].account == s0[j2].account && v@[j2].token == s0[j2].token);
                }
            }
        },
        None => {
            proof {
                lemma_balance_in_absent(s0, account, token);
            }
            let e = BalanceEntry { account: account, token: token, amount: value };
            v.push(e);
            proof {
                assert forall|a2: u64, t2: u32|
                    #[trigger] balance_in(v@, a2, t2) == (if a2 == account && t2 == token {
                        value
                    } else {
                        balance_in(s0, a2, t2)
                    }) by {
                    lemma_balance_push(s0, e, a2, t2);
                }
                assert forall|t2: u32|
                    #[trigger] balance_sum(v@, t2) == balance_sum(s0, t2) + (if t2 == token {
                        value as int - balance_in(s0, account, token) as int
                    } else {
                        0int
                    }) by {
                    lemma_balance_push(s0, e, account, t2);
                }
            }
        },
    }
}

/// Record `approved` for `(owner, operator)`, replacing any previous record.
fn upsert_approval(v: &mut Vec<ApprovalEntry>, owner: u64, operator: u64, approved: bool)
    requires
        approvals_unique(old(v)@),
    ensures
        approvals_unique(final(v)@),
        forall|o2: u64, p2: u64|
            #[trigger] approval_in(final(v)@, o2, p2) == (if o2 == owner && p2 == operator {
                approved
            } else {
                approval_in(old(v)@, o2, p2)
            }),
{
    let ghost s0 = v@;
    match find_approval(v, owner, operator) {
        Some(i) => {
            let e = ApprovalEntry { owner: owner, operator: operator, approved: approved };
            v.set(i, e);
            proof {
                assert(v@ =~= s0.update(
                    i as int,
                    ApprovalEntry { approved: approved, ..s0[i as int] },
                ));
                assert forall|o2: u64, p2: u64|
                    #[trigger] approval_in(v@, o2, p2) == (if o2 == owner && p2 == operator {
                        approved
                    } else {
                        approval_in(s0, o2, p2)
                    }) by {
                    lemma_approval_in_update(s0, i as int, approved, o2, p2);
                }
                assert forall|i2: int, j2: int|
                    0 <= i2 < j2 < v@.len() implies !(v@[i2].owner == v@[j2].owner && v@[i2].operator
                    == v@[j2].operator) by {
                    assert(v@[i2].owner == s0[i2].owner && v@[i2].operator == s0[i2].operator);
                    assert(v@[j2].owner == s0[j2].owner && v@[j2].operator == s0[j2].operator);
                }
            }
        },
        None => {
            proof {
                lemma_approval_in_absent(s0, owner, operator);
            }
            let e = ApprovalEntry { owner: owner, operator: operator, approved: approved };
            v.push(e);
            proof {
                assert forall|o2: u64, p2: u64|
                    #[trigger] approval_in(v@, o2, p2) == (if o2 == owner && p2 == operator {
                        approved
                    } else {
                        approval_in(s0, o2, p2)
                    }) by {
                    lemma_approval_push(s0, e, o2, p2);
                }
            }
        },
    }
}

/// Record the supply of a fresh asset.
fn push_supply(v: &mut Vec<SupplyEntry>, token: u32, amount: u128)
    requires
        supplies_unique(old(v)@),
        forall|i: int| 0 <= i < old(v)@.len() ==> old(v)@[i].amount != 0,
        supply_in(old(v)@, token) == 0,
        amount != 0,
    ensures
        supplies_unique(final(v)@),
        forall|i: int| 0 <= i < final(v)@.len() ==> final(v)@[i].amount != 0,
        forall|t2: u32|
            #[trigger] supply_in(final(v)@, t2) == (if t2 == token {
                amount
            } else {
                supply_in(old(v)@, t2)
            }),
{
    let ghost s0 = v@;
    proof {
        lemma_supply_in_zero_absent(s0, token);
    }
    let e = SupplyEntry { token: token, amount: amount };
    v.push(e);
    proof {
        assert forall|t2: u32|
            #[trigger] supply_in(v@, t2) == (if t2 == token {
                amount
            } else {
                supply_in(s0, t2)
            }) by {
            lemma_supply_push(s0, e, t2);
        }
    }
}

fn copy_supplies(v: &Vec<SupplyEntry>) -> (r: Vec<SupplyEntry>)
    ensures
        r@ == v@,
{
    let mut r: Vec<SupplyEntry> = Vec::new();
    let mut i: usize = 0;
    while i < v.len()
        invariant
            i <= v@.len(),
            r@ == v@.subrange(0, i as int),
        decreases v@.len() - i,
    {
        r.push(v[i]);
        proof {
            assert(r@ =~= v@.subrange(0, i + 1));
        }
        i = i + 1;
    }
    proof {
        assert(r@ =~= v@);
    }
    r
}

fn copy_balances(v: &Vec<BalanceEntry>) -> (r: Vec<BalanceEntry>)
    ensures
        r@ == v@,
{
    let mut r: Vec<BalanceEntry> = Vec::new();
    let mut i: usize = 0;
    while i < v.len()
        invariant
            i <= v@.len(),
            r@ == v@.subrange(0, i as int),
        decreases v@.len() - i,
    {
        r.push(v[i]);
        proof {
            assert(r@ =~= v@.subrange(0, i + 1));
        }
        i = i + 1;
    }
    proof {
        assert(r@ =~= v@);
    }
    r
}

fn copy_approvals(v: &Vec<ApprovalEntry>) -> (r: Vec<ApprovalEntry>)
    ensures
        r@ == v@,
{
    let mut r: Vec<ApprovalEntry> = Vec::new();
    let mut i: usize = 0;
    while i < v.len()
        invariant
            i <= v@.len(),
            r@ == v@.subrange(0, i as int),
        decreases v@.len() - i,
    {
        r.push(v[i]);
        proof {
            assert(r@ =~= v@.subrange(0, i + 1));
        }
        i = i + 1;
    }
    proof {
        assert(r@ =~= v@);
    }
    r
}

/// The sum of balances of an asset is never negative.
proof fn lemma_balance_sum_nonneg(s: Seq<BalanceEntry>, t: u32)
    ensures
        balance_sum(s, t) >= 0,
    decreases s.len(),
{
    if s.len() > 0 {
        lemma_balance_sum_nonneg(s.drop_last(), t);
    }
}

/// One account's balance never exceeds the sum over all accounts.
proof fn lemma_balance_in_le_sum(s: Seq<BalanceEntry>, a: u64, t: u32)
    ensures
        balance_in(s, a, t) as int <= balance_sum(s, t),
    decreases s.len(),
{
    if s.len() > 0 {
        lemma_balance_in_le_sum(s.drop_last(), a, t);
        if s.last().account == a && s.last().token == t {
            lemma_balance_sum_nonneg(s.drop_last(), t);
        }
    }
}

// ---------------------------------------------------------------------------
// Ledger operations
// ---------------------------------------------------------------------------

impl Ledger {
    /// A fresh ledger with no assets, scaling supplies by `10 ^ decimals`.
    pub fn new(decimals: u32) -> (r: Ledger)
        requires
            decimals <= 38,
        ensures
            r.wf(),
            r.st() == initial_ledger((pow10(decimals as nat)) as u128),
    {
        proof {
            lemma_pow10_bounds(decimals as nat);
        }
        let mut s: u128 = 1;
        let mut i: u32 = 0;
        while i < decimals
            invariant
                i <= decimals,
                decimals <= 38,
                s == pow10(i as nat),
            decreases decimals - i,
        {
            proof {
                lemma_pow10_bounds((i + 1) as nat);
                assert(pow10((i + 1) as nat) == 10 * pow10(i as nat));
            }
            s = s * 10;
            i = i + 1;
        }
        let r = Ledger {
            scale: s,
            supplies: Vec::new(),
            balances: Vec::new(),
            approvals: Vec::new(),
        };
        proof {
            assert(r.st().supplies =~= initial_ledger(s).supplies);
            assert(r.st().balances =~= initial_ledger(s).balances);
            assert(r.st().approvals =~= initial_ledger(s).approvals);
            assert(r.st() =~= initial_ledger(s));
        }
        r
    }

    /// A deep copy, used to stage multi-step operations so that a failing
    /// step discards every earlier one.
    pub(crate) fn duplicate(&self) -> (r: Ledger)
        ensures
            r.st() == self.st(),
            r.wf() == self.wf(),
    {
        let r = Ledger {
            scale: self.scale,
            supplies: copy_supplies(&self.supplies),
            balances: copy_balances(&self.balances),
            approvals: copy_approvals(&self.approvals),
        };
        proof {
            assert(r.st().supplies =~= self.st().supplies);
            assert(r.st().balances =~= self.st().balances);
            assert(r.st().approvals =~= self.st().approvals);
            assert(r.st() =~= self.st());
        }
        r
    }

    /// Storage getter: the recorded total supply, 0 when uninitialized.
    pub fn get_total_supply(&self, token: u32) -> (r: u128)
        requires
            self.wf(),
        ensures
            r == self.st().supplies[token],
    {
        match find_supply(&self.supplies, token) {
            Some(i) => {
                proof {
                    lemma_supply_in_present(self.supplies@, i as int);
                }
                self.supplies[i].amount
            },
            None => {
                proof {
                    lemma_supply_in_absent(self.supplies@, token);
                }
                0
            },
        }
    }

    /// Storage getter: the recorded balance, 0 by default.
    pub fn get_balance(&self, account: u64, token: u32) -> (r: u128)
        requires
            self.wf(),
        ensures
            r == self.st().balance_of(account, token),
    {
        match find_balance(&self.balances, account, token) {
            Some(i) => {
                proof {
                    lemma_balance_in_present(self.balances@, i as int);
                }
                self.balances[i].amount
            },
            None => {
                proof {
                    lemma_balance_in_absent(self.balances@, account, token);
                }
                0
            },
        }
    }

    /// Storage getter: the recorded approval, false by default.
    pub fn get_approval(&self, owner: u64, operator: u64) -> (r: bool)
        requires
            self.wf(),
        ensures
            r == self.st().approved(owner, operator),
    {
        match find_approval(&self.approvals, owner, operator) {
            Some(i) => {
                proof {
                    lemma_approval_in_present(self.approvals@, i as int);
                }
                self.approvals[i].approved
            },
            None => {
                proof {
                    lemma_approval_in_absent(self.approvals@, owner, operator);
                }
                false
            },
        }
    }

    /// The total supply of a live asset, or `Uninitialized`.
    pub fn total_supply(&self, token: u32) -> (r: Result<u128, Error>)
        requires
            self.wf(),
        ensures
            match r {
                Ok(v) => self.st().token_live(token) && v == self.st().supplies[token],
                Err(e) => !self.st().token_live(token) && e == Error::Uninitialized,
            },
    {
        let s = self.get_total_supply(token);
        if s == 0 {
            Err(Error::Uninitialized)
        } else {
            Ok(s)
        }
    }

    /// The balance of `account` in a live asset, or `Uninitialized`.
    pub fn balance_of(&self, account: u64, token: u32) -> (r: Result<u128, Error>)
        requires
            self.wf(),
        ensures
            match r {
                Ok(v) => self.st().token_live(token) && v == self.st().balance_of(account, token),
                Err(e) => !self.st().token_live(token) && e == Error::Uninitialized,
            },
    {
        if self.get_total_supply(token) == 0 {
            Err(Error::Uninitialized)
        } else {
            Ok(self.get_balance(account, token))
        }
    }

    /// Pairwise balances for zipped account and asset lists.
    pub fn balance_of_batch(&self, accounts: &Vec<u64>, tokens: &Vec<u32>) -> (r: Result<
        Vec<u128>,
        Error,
    >)
        requires
            self.wf(),
        ensures
            r is Ok <==> (accounts@.len() == tokens@.len() && (forall|i: int|
                0 <= i < tokens@.len() ==> self.st().token_live(tokens@[i]))),
            match r {
                Ok(v) => v@.len() == accounts@.len() && (forall|i: int|
                    0 <= i < v@.len() ==> v@[i] == self.st().balance_of(
                        accounts@[i],
                        tokens@[i],
                    )),
                Err(e) => e == (if accounts@.len() != tokens@.len() {
                    Error::InsufficientData
                } else {
                    Error::Uninitialized
                }),
            },
    {
        if accounts.len() != tokens.len() {
            return Err(Error::InsufficientData);
        }
        let mut out: Vec<u128> = Vec::new();
        let mut i: usize = 0;
        while i < accounts.len()
            invariant
                self.wf(),
                i <= accounts@.len(),
                accounts@.len() == tokens@.len(),
                out@.len() == i,
                forall|j: int| 0 <= j < i ==> self.st().token_live(tokens@[j]),
                forall|j: int|
                    0 <= j < i ==> out@[j] == self.st().balance_of(accounts@[j], tokens@[j]),
            decreases accounts@.len() - i,
        {
            match self.balance_of(accounts[i], tokens[i]) {
                Ok(b) => {
                    out.push(b);
                },
                Err(e) => {
                    return Err(e);
                },
            }
            i = i + 1;
        }
        Ok(out)
    }

    /// Debit `from`, credit `to`. The caller has done every other check.
    fn apply_transfer(&mut self, from: u64, to: u64, token: u32, amount: u128) -> (r: Result<
        (),
        Error,
    >)
        requires
            old(self).wf(),
            from != to,
        ensures
            final(self).wf(),
            match r {
                Ok(()) => old(self).st().step_transfer(from, to, token, amount) == Ok::<
                    LedgerSt,
                    Error,
                >(final(self).st()),
                Err(e) => final(self).st() == old(self).st() && old(self).st().step_transfer(
                    from,
                    to,
                    token,
                    amount,
                ) == Err::<LedgerSt, Error>(e),
            },
    {
        let fb = self.get_balance(from, token);
        if fb < amount {
            return Err(Error::InsufficientFunds);
        }
        let tb = self.get_balance(to, token);
        if tb > u128::MAX - amount {
            return Err(Error::Overflow);
        }
        let ghost st0 = self.st();
        upsert_balance(&mut self.balances, from, token, fb - amount);
        upsert_balance(&mut self.balances, to, token, tb + amount);
        proof {
            let expected = st0.balances.insert((from, token), (fb - amount) as u128).insert(
                (to, token),
                (tb + amount) as u128,
            );
            assert(self.st().balances =~= expected);
            assert(self.st().supplies =~= st0.supplies);
            assert(self.st().approvals =~= st0.approvals);
            assert(self.st() =~= LedgerSt { balances: expected, ..st0 });
            assert forall|t2: u32|
                #[trigger] balance_sum(self.balances@, t2) == supply_in(self.supplies@, t2) by {
                assert(supply_in(self.supplies@, t2) == st0.supplies[t2]);
            }
        }
        Ok(())
    }

    /// The unauthorized transfer primitive: every check of
    /// [`LedgerSt::transfer_tr`] except the approval. It is meant for callers
    /// that already hold the right to move `from`'s funds, such as the pool
    /// engine paying out a redemption; exposing it to arbitrary callers would
    /// collapse the approval boundary.
    pub fn transfer(&mut self, from: u64, to: u64, token: u32, amount: u128) -> (r: Result<
        (),
        Error,
    >)
        requires
            old(self).wf(),
        ensures
            final(self).wf(),
            match r {
                Ok(()) => old(self).st().transfer_tr(from, to, token, amount) == Ok::<
                    LedgerSt,
                    Error,
                >(final(self).st()),
                Err(e) => final(self).st() == old(self).st() && old(self).st().transfer_tr(
                    from,
                    to,
                    token,
                    amount,
                ) == Err::<LedgerSt, Error>(e),
            },
    {
        if self.get_total_supply(token) == 0 {
            return Err(Error::Uninitialized);
        }
        if amount == 0 {
            return Err(Error::ZeroAmount);
        }
        if to == 0 {
            return Err(Error::ZeroAddress);
        }
        if from == to {
            return Err(Error::SelfTransfer);
        }
        self.apply_transfer(from, to, token, amount)
    }

    /// An operator-authorized transfer of one asset.
    pub fn transfer_from_single(&mut self, from: u64, to: u64, token: u32, amount: u128) -> (r:
        Result<(), Error>)
        requires
            old(self).wf(),
        ensures
            final(self).wf(),
            match r {
                Ok(()) => old(self).st().transfer_from_single_tr(from, to, token, amount) == Ok::<
                    LedgerSt,
                    Error,
                >(final(self).st()),
                Err(e) => final(self).st() == old(self).st()
                    && old(self).st().transfer_from_single_tr(from, to, token, amount) == Err::<
                    LedgerSt,
                    Error,
                >(e),
            },
    {
        if self.get_total_supply(token) == 0 {
            return Err(Error::Uninitialized);
        }
        if amount == 0 {
            return Err(Error::ZeroAmount);
        }
        if to == 0 {
            return Err(Error::ZeroAddress);
        }
        if from == to {
            return Err(Error::SelfTransfer);
        }
        if !self.get_approval(from, to) {
            return Err(Error::NotApproved);
        }
        self.apply_transfer(from, to, token, amount)
    }

    /// Record an approval: an unconditional, idempotent set.
    pub fn set_approval_for_all(&mut self, owner: u64, operator: u64, approved: bool)
        requires
            old(self).wf(),
        ensures
            final(self).wf(),
            final(self).st() == old(self).st().set_approval_tr(owner, operator, approved),
    {
        let ghost st0 = self.st();
        upsert_approval(&mut self.approvals, owner, operator, approved);
        proof {
            let expected = st0.approvals.insert((owner, operator), approved);
            assert(self.st().approvals =~= expected);
            assert(self.st().supplies =~= st0.supplies);
            assert(self.st().balances =~= st0.balances);
            assert(self.st() =~= LedgerSt { approvals: expected, ..st0 });
            assert forall|t2: u32|
                #[trigger] balance_sum(self.balances@, t2) == supply_in(self.supplies@, t2) by {
            }
        }
    }
}

impl Ledger {
    /// Initialize a batch of assets, crediting each scaled supply to `who`.
    /// All assets are initialized, or none is.
    pub fn init(&mut self, who: u64, token_ids: &Vec<u32>, supplies: &Vec<u128>) -> (r: Result<
        (),
        Error,
    >)
        requires
            old(self).wf(),
        ensures
            final(self).wf(),
            match r {
                Ok(()) => old(self).st().init_tr(who, token_ids@, supplies@) == Ok::<
                    LedgerSt,
                    Error,
                >(final(self).st()),
                Err(e) => final(self).st() == old(self).st() && old(self).st().init_tr(
                    who,
                    token_ids@,
                    supplies@,
                ) == Err::<LedgerSt, Error>(e),
            },
    {
        if token_ids.len() != supplies.len() {
            return Err(Error::InsufficientData);
        }
        let ghost st0 = self.st();
        let mut staged = self.duplicate();
        proof {
            assert(token_ids@.skip(0) =~= token_ids@);
            assert(supplies@.skip(0) =~= supplies@);
        }
        let mut i: usize = 0;
        while i < token_ids.len()
            invariant
                staged.wf(),
                staged.scale == staged.st().scale,
                i <= token_ids@.len(),
                token_ids@.len() == supplies@.len(),
                st0 == self.st(),
                self.wf(),
                st0.init_steps(who, token_ids@, supplies@) == staged.st().init_steps(
                    who,
                    token_ids@.skip(i as int),
                    supplies@.skip(i as int),
                ),
            decreases token_ids@.len() - i,
        {
            let t = token_ids[i];
            let sup = supplies[i];
            proof {
                assert(token_ids@.skip(i as int)[0] == token_ids@[i as int]);
                assert(supplies@.skip(i as int)[0] == supplies@[i as int]);
                assert(token_ids@.skip(i as int).skip(1) =~= token_ids@.skip(i as int + 1));
                assert(supplies@.skip(i as int).skip(1) =~= supplies@.skip(i as int + 1));
            }
            let scaled = match crate::math::checked_mul(sup, staged.scale) {
                Some(v) => v,
                None => {
                    return Err(Error::Overflow);
                },
            };
            if staged.get_total_supply(t) != 0 {
                return Err(Error::AlreadyInitialized);
            }
            if scaled == 0 {
                return Err(Error::ZeroSupply);
            }
            let ghost stg = staged.st();
            proof {
                lemma_balance_in_le_sum(staged.balances@, who, t);
                lemma_balance_sum_nonneg(staged.balances@, t);
                assert(stg.balance_of(who, t) == 0);
            }
            upsert_balance(&mut staged.balances, who, t, scaled);
            push_supply(&mut staged.supplies, t, scaled);
            proof {
                let expected = LedgerSt {
                    supplies: stg.supplies.insert(t, scaled),
                    balances: stg.balances.insert((who, t), scaled),
                    ..stg
                };
                assert(staged.st().supplies =~= expected.supplies);
                assert(staged.st().balances =~= expected.balances);
                assert(staged.st().approvals =~= expected.approvals);
                assert(staged.st() =~= expected);
                assert forall|t2: u32|
                    #[trigger] balance_sum(staged.balances@, t2) == supply_in(
                        staged.supplies@,
                        t2,
                    ) by {}
            }
            i = i + 1;
        }
        proof {
            assert(token_ids@.skip(i as int) =~= Seq::<u32>::empty());
            assert(supplies@.skip(i as int) =~= Seq::<u128>::empty());
        }
        *self = staged;
        Ok(())
    }

    /// An operator-authorized transfer of several assets; each pair sees the
    /// balances left by the pairs before it. All pairs are transferred, or
    /// none is.
    pub fn transfer_from_batch(
        &mut self,
        from: u64,
        to: u64,
        token_ids: &Vec<u32>,
        amounts: &Vec<u128>,
    ) -> (r: Result<(), Error>)
        requires
            old(self).wf(),
        ensures
            final(self).wf(),
            match r {
                Ok(()) => old(self).st().transfer_from_batch_tr(from, to, token_ids@, amounts@)
                    == Ok::<LedgerSt, Error>(final(self).st()),
                Err(e) => final(self).st() == old(self).st()
                    && old(self).st().transfer_from_batch_tr(from, to, token_ids@, amounts@)
                    == Err::<LedgerSt, Error>(e),
            },
    {
        if token_ids.len() != amounts.len() {
            return Err(Error::InsufficientData);
        }
        if to == 0 {
            return Err(Error::ZeroAddress);
        }
        if from == to {
            return Err(Error::SelfTransfer);
        }
        if !self.get_approval(from, to) {
            return Err(Error::NotApproved);
        }
        let ghost st0 = self.st();
        let mut staged = self.duplicate();
        proof {
            assert(token_ids@.skip(0) =~= token_ids@);
            assert(amounts@.skip(0) =~= amounts@);
        }
        let mut i: usize = 0;
        while i < token_ids.len()
            invariant
                staged.wf(),
                i <= token_ids@.len(),
                token_ids@.len() == amounts@.len(),
                from != to,
                to != 0,
                st0.approved(from, to),
                st0 == self.st(),
                self.wf(),
                st0.batch_steps(from, to, token_ids@, amounts@) == staged.st().batch_steps(
                    from,
                    to,
                    token_ids@.skip(i as int),
                    amounts@.skip(i as int),
                ),
            decreases token_ids@.len() - i,
        {
            let t = token_ids[i];
            let a = amounts[i];
            proof {
                assert(token_ids@.skip(i as int)[0] == token_ids@[i as int]);
                assert(amounts@.skip(i as int)[0] == amounts@[i as int]);
                assert(token_ids@.skip(i as int).skip(1) =~= token_ids@.skip(i as int + 1));
                assert(amounts@.skip(i as int).skip(1) =~= amounts@.skip(i as int + 1));
            }
            if staged.get_total_supply(t) == 0 {
                return Err(Error::Uninitialized);
            }
            if a == 0 {
                return Err(Error::ZeroAmount);
            }
            match staged.apply_transfer(from, to, t, a) {
                Ok(()) => {},
                Err(e) => {
                    return Err(e);
                },
            }
            i = i + 1;
        }
        proof {
            assert(token_ids@.skip(i as int) =~= Seq::<u32>::empty());
            assert(amounts@.skip(i as int) =~= Seq::<u128>::empty());
        }
        *self = staged;
        Ok(())
    }
}

} // verus!

use dex::math::integer_sqrt;
use dex::Erc1155;
use dex::{Error, Fraction, Ledger, Pool};

const T1: u32 = 1;
const T2: u32 = 2;
const MIL: u128 = 1_000_000;

const POOL: u64 = 101;
const ALICE: u64 = 1;
const BOB: u64 = 2;

fn new_system() -> (Ledger, Pool) {
    (Ledger::new(6), Pool::new(Fraction::from_percent(99)))
}

fn funded_pool(amount_a: u128, amount_b: u128) -> (Ledger, Pool) {
    let (mut l, mut p) = new_system();
    assert_eq!(l.init(ALICE, &vec![T1, T2], &vec![1000, 1000]), Ok(()));
    l.set_approval_for_all(ALICE, POOL, true);
    assert_eq!(p.init(&mut l, ALICE, POOL, T1, amount_a * MIL, T2, amount_b * MIL), Ok(()));
    (l, p)
}

#[test]
fn fraction_from_percent_caps_at_100() {
    assert_eq!(Fraction::from_percent(150), Fraction::from_percent(100));
    assert_eq!(Fraction::from_percent(100).apply(123_456_789), 123_456_789);
    assert_eq!(Fraction::from_percent(0).apply(123_456_789), 0);
    assert_eq!(Fraction::from_percent(99).apply(100_000_000), 99_000_000);
}

#[test]
fn fraction_apply_rounds_to_nearest() {
    // 1/3 of 10 is 3.33..., 2/3 of 10 is 6.66...: nearest whole units.
    assert_eq!(Fraction::from_rational(1, 3).apply(10), 3);
    assert_eq!(Fraction::from_rational(2, 3).apply(10), 7);
}

#[test]
fn fraction_from_rational_reduces_large_denominators() {
    // The denominator is first reduced by ceil(q / 1e9), losing low digits.
    let f = Fraction::from_rational(1_500_000_000, 2_015_639_998);
    assert_eq!(f, Fraction::from_rational(500_000_000, 671_879_999));
    assert_eq!(f.apply(1_000_000_000), 744_180_509);
}

#[test]
fn fraction_combine_multiplies() {
    let half = Fraction::from_percent(50);
    assert_eq!(half.combine(half), Fraction::from_percent(25));
    assert_eq!(Fraction::from_percent(100).combine(half), half);
    assert!(Fraction::from_percent(0).is_zero());
    assert!(!half.is_zero());
}

#[test]
fn integer_sqrt_exact_values() {
    assert_eq!(integer_sqrt(0), 0);
    assert_eq!(integer_sqrt(1), 1);
    assert_eq!(integer_sqrt(10), 3);
    assert_eq!(integer_sqrt(100_000_000), 10_000);
    assert_eq!(integer_sqrt(u128::MAX), 18_446_744_073_709_551_615);
}

#[test]
fn total_supply_and_batch_queries() {
    let mut l = Ledger::new(6);
    assert_eq!(l.total_supply(T1), Err(Error::Uninitialized));
    assert_eq!(l.init(ALICE, &vec![T1], &vec![1000]), Ok(()));
    assert_eq!(l.total_supply(T1), Ok(1000 * MIL));
    assert_eq!(l.balance_of_batch(&vec![ALICE, BOB], &vec![T1, T1]), Ok(vec![1000 * MIL, 0]));
    assert_eq!(l.balance_of_batch(&vec![ALICE], &vec![T1, T1]), Err(Error::InsufficientData));
    assert_eq!(l.balance_of_batch(&vec![ALICE, BOB], &vec![T1, T2]), Err(Error::Uninitialized));
}

#[test]
fn batch_transfer_sees_earlier_pairs() {
    // Two debits of the same asset in one batch are sequential: together they
    // may exceed the balance even though each alone would not.
    let mut l = Ledger::new(6);
    assert_eq!(l.init(ALICE, &vec![T1], &vec![1000]), Ok(()));
    l.set_approval_for_all(ALICE, BOB, true);
    assert_eq!(
        l.transfer_from_batch(ALICE, BOB, &vec![T1, T1], &vec![600 * MIL, 600 * MIL]),
        Err(Error::InsufficientFunds)
    );
    assert_eq!(l.get_balance(ALICE, T1), 1000 * MIL);
    assert_eq!(l.get_balance(BOB, T1), 0);
    assert_eq!(
        l.transfer_from_batch(ALICE, BOB, &vec![T1, T1], &vec![400 * MIL, 400 * MIL]),
        Ok(())
    );
    assert_eq!(l.get_balance(ALICE, T1), 200 * MIL);
    assert_eq!(l.get_balance(BOB, T1), 800 * MIL);
}

#[test]
fn pool_operations_require_initialization() {
    let (mut l, mut p) = new_system();
    assert_eq!(l.init(ALICE, &vec![T1, T2], &vec![1000, 1000]), Ok(()));
    assert_eq!(p.get_pool_address(), None);
    assert_eq!(p.get_token_ids(), None);
    assert_eq!(p.get_total_liquidity(), None);
    assert_eq!(p.buy_token(&mut l, ALICE, T1, MIL), Err(Error::Uninitialized));
    assert_eq!(p.deposit(&mut l, ALICE, T1, MIL), Err(Error::Uninitialized));
    assert_eq!(p.deposit_single_token(&mut l, ALICE, T1, MIL), Err(Error::Uninitialized));
    assert_eq!(p.withdraw(&mut l, ALICE, 50), Err(Error::Uninitialized));
    assert_eq!(p.withdraw_single_token(&mut l, ALICE, T1, 50), Err(Error::Uninitialized));
    assert_eq!(p.get_pool_share(ALICE), Err(Error::Uninitialized));
    assert_eq!(p.get_total_reward(&l), Err(Error::Uninitialized));
    assert_eq!(p.get_reward(&l, ALICE), Err(Error::Uninitialized));
}

#[test]
fn pool_init_is_irreversible() {
    let (mut l, mut p) = funded_pool(100, 200);
    assert_eq!(
        p.init(&mut l, ALICE, POOL, T1, 10 * MIL, T2, 10 * MIL),
        Err(Error::AlreadyInitialized)
    );
    assert_eq!(p.get_pool_address(), Some(POOL));
}

#[test]
fn wrong_token_id_is_an_error_not_a_crash() {
    let (mut l, mut p) = funded_pool(100, 200);
    assert_eq!(p.buy_token(&mut l, ALICE, 9, MIL), Err(Error::WrongTokenId));
    assert_eq!(p.deposit(&mut l, ALICE, 9, MIL), Err(Error::WrongTokenId));
    assert_eq!(p.deposit_single_token(&mut l, ALICE, 9, MIL), Err(Error::WrongTokenId));
    assert_eq!(p.withdraw_single_token(&mut l, ALICE, 9, 50), Err(Error::WrongTokenId));
    assert_eq!(l.balance_of(POOL, T1), Ok(100 * MIL));
    assert_eq!(l.balance_of(POOL, T2), Ok(200 * MIL));
}

#[test]
fn withdraw_single_token_zero_share_fails() {
    let (mut l, mut p) = funded_pool(100, 200);
    // BOB holds no liquidity, so any percentage of their share rounds to 0.
    assert_eq!(
        p.withdraw_single_token(&mut l, BOB, T1, 50),
        Err(Error::NoLiquidityToWithdraw)
    );
}

#[test]
fn failed_swap_rolls_back_the_payment() {
    // A one-unit trade prices to zero output; the payout transfer then fails
    // and the trader's payment must be restored.
    let (mut l, mut p) = funded_pool(100, 100);
    assert_eq!(p.buy_token(&mut l, ALICE, T1, 1), Err(Error::ZeroAmount));
    assert_eq!(l.balance_of(ALICE, T1), Ok(900 * MIL));
    assert_eq!(l.balance_of(POOL, T1), Ok(100 * MIL));
    assert_eq!(l.balance_of(POOL, T2), Ok(100 * MIL));
}

#[test]
fn sole_provider_round_trip_is_exact() {
    // Deposit then withdraw 100%: the sole provider recovers the pre-deposit
    // reserves and the deposit exactly, and the pool drains to zero.
    let (mut l, mut p) = funded_pool(100, 200);
    assert_eq!(p.deposit(&mut l, ALICE, T1, 30 * MIL), Ok(()));
    assert_eq!(l.balance_of(POOL, T1), Ok(130 * MIL));
    assert_eq!(l.balance_of(POOL, T2), Ok(260 * MIL));
    assert_eq!(p.get_total_liquidity(), Some(390 * MIL));
    assert_eq!(p.withdraw(&mut l, ALICE, 100), Ok(()));
    assert_eq!(l.balance_of(ALICE, T1), Ok(1000 * MIL));
    assert_eq!(l.balance_of(ALICE, T2), Ok(1000 * MIL));
    assert_eq!(l.balance_of(POOL, T1), Ok(0));
    assert_eq!(l.balance_of(POOL, T2), Ok(0));
    assert_eq!(p.get_total_liquidity(), Some(0));
    assert_eq!(p.get_liquidity(ALICE), 0);
}

#[test]
fn fee_reduces_output_below_spot() {
    // With fee 0.99 the swap output stays strictly below the fee-free spot
    // value amount * reserve_out / reserve_in.
    let (mut l, mut p) = funded_pool(100, 1000);
    assert_eq!(p.buy_token(&mut l, ALICE, T1, 100 * MIL), Ok(()));
    let bought = l.balance_of(ALICE, T2).unwrap();
    assert_eq!(bought, 497_487_437);
    let spot = 100 * MIL * 1000 * MIL / (100 * MIL);
    assert!(bought < spot);
}

#[test]
fn reward_is_distributed_by_pool_share() {
    let (mut l, mut p) = funded_pool(100, 100);
    l.set_approval_for_all(BOB, POOL, true);
    l.set_approval_for_all(ALICE, BOB, true);
    assert_eq!(
        l.transfer_from_batch(ALICE, BOB, &vec![T1, T2], &vec![150 * MIL, 100 * MIL]),
        Ok(())
    );
    assert_eq!(p.deposit(&mut l, BOB, T1, 100 * MIL), Ok(()));
    assert_eq!(p.get_reward(&l, ALICE), Ok(0));
    assert_eq!(p.buy_token(&mut l, BOB, T1, 50 * MIL), Ok(()));
    let total = p.get_total_reward(&l).unwrap();
    let half = Fraction::from_percent(50);
    assert_eq!(p.get_pool_share(ALICE), Ok(half));
    assert_eq!(p.get_reward(&l, ALICE), Ok(half.apply(total)));
}

#[test]
fn ledger_conserves_supply_across_operations() {
    // The sum of all account balances of an asset always equals its total
    // supply, whatever sequence of operations ran.
    let (mut l, mut p) = funded_pool(100, 200);
    l.set_approval_for_all(BOB, POOL, true);
    l.set_approval_for_all(ALICE, BOB, true);
    assert_eq!(
        l.transfer_from_batch(ALICE, BOB, &vec![T1, T2], &vec![200 * MIL, 200 * MIL]),
        Ok(())
    );
    assert_eq!(p.deposit(&mut l, BOB, T2, 40 * MIL), Ok(()));
    assert_eq!(p.buy_token(&mut l, BOB, T1, 5 * MIL), Ok(()));
    assert_eq!(p.withdraw(&mut l, ALICE, 35), Ok(()));
    for t in [T1, T2] {
        let held: u128 = [ALICE, BOB, POOL].iter().map(|a| l.get_balance(*a, t)).sum();
        assert_eq!(held, l.total_supply(t).unwrap());
    }
}

#[test]
fn approval_is_a_capability_any_caller_can_exercise() {
    // The operator-authorized transfers consult only the owner-to-recipient
    // approval; no separate caller identity is checked. Once ALICE approves
    // BOB, a transfer from ALICE to BOB can be triggered regardless of who
    // submits it.
    let mut l = Ledger::new(6);
    assert_eq!(l.init(ALICE, &vec![T1], &vec![1000]), Ok(()));
    l.set_approval_for_all(ALICE, BOB, true);
    assert_eq!(l.transfer_from_single(ALICE, BOB, T1, 10 * MIL), Ok(()));
    assert_eq!(l.get_balance(BOB, T1), 10 * MIL);
}

#[test]
fn ledger_serves_the_erc1155_interface() {
    fn run<T: Erc1155>(l: &mut T) {
        assert_eq!(l.init(ALICE, &vec![T1], &vec![1000]), Ok(()));
        assert_eq!(l.total_supply(T1), Ok(1000 * MIL));
        l.set_approval_for_all(ALICE, BOB, true);
        assert_eq!(l.transfer_from_single(ALICE, BOB, T1, 25 * MIL), Ok(()));
        assert_eq!(l.transfer(BOB, ALICE, T1, 5 * MIL), Ok(()));
        assert_eq!(l.balance_of(BOB, T1), Ok(20 * MIL));
        assert_eq!(l.balance_of_batch(&vec![ALICE, BOB], &vec![T1, T1]),
            Ok(vec![980 * MIL, 20 * MIL]));
    }
    let mut l = Ledger::new(6);
    run(&mut l);
}

#[test]
fn buy_token_needs_no_approval() {
    // The caller is the direct source of a swap's pay-in, so buying consults
    // no operator approval: BOB never approves the pool account and still
    // trades. 0.99 * 10 * 1000 / (100 + 9.9) = 90.081892.
    let (mut l, mut p) = funded_pool(100, 1000);
    l.set_approval_for_all(ALICE, BOB, true);
    assert_eq!(l.transfer_from_single(ALICE, BOB, T1, 10 * MIL), Ok(()));
    assert_eq!(l.get_approval(BOB, POOL), false);
    assert_eq!(p.buy_token(&mut l, BOB, T1, 10 * MIL), Ok(()));
    assert_eq!(l.balance_of(BOB, T1), Ok(0));
    assert_eq!(l.balance_of(BOB, T2), Ok(90_081_892));
    assert_eq!(l.balance_of(POOL, T1), Ok(110 * MIL));
    assert_eq!(l.balance_of(POOL, T2), Ok(909_918_108));
}

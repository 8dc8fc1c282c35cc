use dex::{Error, Fraction, Ledger, Pool};

const TOKEN_1_ID: u32 = 1;
const TOKEN_2_ID: u32 = 2;
const MIL: u128 = 1_000_000;

const POOL: u64 = 101;
const ALICE: u64 = 1;
const BOB: u64 = 2;
const CHARLIE: u64 = 3;
const MARRY: u64 = 5;
const JOHN: u64 = 6;

fn new_system() -> (Ledger, Pool) {
    (Ledger::new(6), Pool::new(Fraction::from_percent(99)))
}

fn init_tokens(l: &mut Ledger, total_supply: u128) {
    assert_eq!(
        l.init(ALICE, &vec![TOKEN_1_ID, TOKEN_2_ID], &vec![total_supply, total_supply]),
        Ok(())
    );
}

fn approve(l: &mut Ledger, owner: u64, operator: u64) {
    l.set_approval_for_all(owner, operator, true);
}

fn approve_and_transfer(l: &mut Ledger, from: u64, to: u64, amount: u128) {
    l.set_approval_for_all(from, to, true);
    assert_eq!(
        l.transfer_from_batch(
            from,
            to,
            &vec![TOKEN_1_ID, TOKEN_2_ID],
            &vec![amount * MIL, amount * MIL]
        ),
        Ok(())
    );
}

fn init_dex(l: &mut Ledger, p: &mut Pool, amount_0: u128, amount_1: u128) {
    assert_eq!(
        p.init(l, ALICE, POOL, TOKEN_1_ID, amount_0 * MIL, TOKEN_2_ID, amount_1 * MIL),
        Ok(())
    );
}

#[test]
fn init_should_work() {
    let (mut l, mut p) = new_system();
    let total_supply = 1000;
    init_tokens(&mut l, total_supply);
    approve(&mut l, ALICE, POOL);
    init_dex(&mut l, &mut p, 100, 1000);
    assert_eq!(l.balance_of(POOL, TOKEN_1_ID), Ok(100_000_000));
    assert_eq!(l.balance_of(POOL, TOKEN_2_ID), Ok(1000_000_000));
    assert_eq!(p.get_pool_address(), Some(POOL));
    assert_eq!(p.get_token_ids(), Some((TOKEN_1_ID, TOKEN_2_ID)));
    assert_eq!(p.get_liquidity(ALICE), 1100 * MIL);
    assert_eq!(p.get_liquidity(BOB), 0);
}

#[test]
fn init_should_fail_0() {
    let (mut l, mut p) = new_system();
    init_tokens(&mut l, 1000);
    assert_eq!(
        p.init(&mut l, ALICE, POOL, TOKEN_1_ID, 100 * MIL, TOKEN_2_ID, 1000 * MIL),
        Err(Error::NotApproved)
    );
}

#[test]
fn tests_init_should_fail_1() {
    let (mut l, mut p) = new_system();
    init_tokens(&mut l, 1000);
    approve_and_transfer(&mut l, ALICE, BOB, 1000);
    approve(&mut l, ALICE, POOL);
    assert_eq!(
        p.init(&mut l, ALICE, POOL, TOKEN_1_ID, 100 * MIL, TOKEN_2_ID, 1000 * MIL),
        Err(Error::InsufficientFunds)
    );
}

#[test]
fn tests_init_should_fail_2() {
    let (mut l, mut p) = new_system();
    assert_eq!(
        p.init(&mut l, ALICE, POOL, TOKEN_1_ID, 0, TOKEN_2_ID, 0),
        Err(Error::WrongInitialization)
    );
}

#[test]
fn tests_init_should_fail_3() {
    let (mut l, mut p) = new_system();
    assert_eq!(
        p.init(&mut l, ALICE, 0, TOKEN_1_ID, 100, TOKEN_2_ID, 1000),
        Err(Error::WrongInitialization)
    );
}

#[test]
fn tests_init_should_fail_4() {
    let (mut l, mut p) = new_system();
    init_tokens(&mut l, 1000);
    approve(&mut l, ALICE, POOL);
    assert_eq!(
        p.init(&mut l, ALICE, POOL, 3, 100 * MIL, 4, 1000 * MIL),
        Err(Error::Uninitialized)
    );
}

#[test]
fn buy_token_should_work() {
    let (mut l, mut p) = new_system();
    init_tokens(&mut l, 1000);
    approve(&mut l, ALICE, POOL);
    init_dex(&mut l, &mut p, 100, 1000);
    assert_eq!(p.buy_token(&mut l, ALICE, TOKEN_1_ID, 100 * MIL), Ok(()));
    assert_eq!(l.balance_of(ALICE, TOKEN_1_ID), Ok(800_000_000));
    // 0.99 * 100 * 1000 / (100 + 99) = 497.487437
    assert_eq!(l.balance_of(ALICE, TOKEN_2_ID), Ok(497_487_437));
    assert_eq!(p.buy_token(&mut l, ALICE, TOKEN_2_ID, 235 * MIL), Ok(()));
    // 0.99 * 235 * 200 / (502.512563 + 232.65) = 63.292123
    assert_eq!(l.balance_of(ALICE, TOKEN_1_ID), Ok(863_292_123));
    assert_eq!(l.balance_of(ALICE, TOKEN_2_ID), Ok(262_487_437));
}

#[test]
fn buy_token_should_fail() {
    let (mut l, mut p) = new_system();
    init_tokens(&mut l, 1000);
    approve(&mut l, ALICE, POOL);
    init_dex(&mut l, &mut p, 100, 1000);
    assert_eq!(p.withdraw(&mut l, ALICE, 100), Ok(()));
    assert_eq!(
        p.buy_token(&mut l, ALICE, TOKEN_1_ID, 1 * MIL),
        Err(Error::NoLiquidity)
    );
}

#[test]
fn deposit_should_work_1() {
    let (mut l, mut p) = new_system();
    init_tokens(&mut l, 1000);
    approve_and_transfer(&mut l, ALICE, BOB, 300);
    approve(&mut l, ALICE, POOL);
    approve(&mut l, BOB, POOL);
    init_dex(&mut l, &mut p, 100, 200);
    assert_eq!(p.deposit(&mut l, BOB, TOKEN_1_ID, 100 * MIL), Ok(()));
    assert_eq!(p.get_liquidity(BOB), 300_000_000);
    assert_eq!(l.balance_of(POOL, TOKEN_1_ID), Ok(200_000_000));
    assert_eq!(l.balance_of(POOL, TOKEN_2_ID), Ok(400_000_000));
    assert_eq!(p.deposit(&mut l, BOB, TOKEN_2_ID, 50 * MIL), Ok(()));
    assert_eq!(p.get_liquidity(BOB), 375_000_000);
    assert_eq!(l.balance_of(POOL, TOKEN_1_ID), Ok(225_000_000));
    assert_eq!(l.balance_of(POOL, TOKEN_2_ID), Ok(450_000_000));
}

#[test]
fn deposit_single_token_should_work_1() {
    let (mut l, mut p) = new_system();
    init_tokens(&mut l, 1000);
    approve_and_transfer(&mut l, ALICE, BOB, 300);
    approve(&mut l, ALICE, POOL);
    approve(&mut l, BOB, POOL);
    init_dex(&mut l, &mut p, 100, 100);
    assert_eq!(p.deposit_single_token(&mut l, BOB, TOKEN_1_ID, 10 * MIL), Ok(()));
    // due to the internal swap and fee the minted liquidity is 9.526565
    // instead of 10, for a deposit conceptually split around 5 tokens
    assert_eq!(p.get_liquidity(BOB), 9_526_565);
    assert_eq!(l.balance_of(POOL, TOKEN_1_ID), Ok(110_000_000));
    assert_eq!(l.balance_of(POOL, TOKEN_2_ID), Ok(100_000_000));
}

#[test]
fn withdraw_should_work_1() {
    let (mut l, mut p) = new_system();
    init_tokens(&mut l, 1100);
    approve_and_transfer(&mut l, ALICE, BOB, 100);
    approve(&mut l, ALICE, POOL);
    approve(&mut l, BOB, POOL);
    init_dex(&mut l, &mut p, 100, 1000);
    // 0.99 * 100 * 1000 / (100 + 99) = 497.487437
    assert_eq!(p.buy_token(&mut l, BOB, TOKEN_1_ID, 100 * MIL), Ok(()));
    assert_eq!(p.withdraw(&mut l, ALICE, 15), Ok(()));
    // 800 + 200 * 0.15 = 830
    assert_eq!(l.balance_of(ALICE, TOKEN_1_ID), Ok(930_000_000));
    // 0 + 502.512563 * 0.15 = 75.376884
    assert_eq!(l.balance_of(ALICE, TOKEN_2_ID), Ok(753_768_84));
    // ~ 1100 * 0.85 = 935
    assert_eq!(p.get_liquidity(ALICE), 935_000_000);
}

#[test]
fn withdraw_should_work_2() {
    let (mut l, mut p) = new_system();
    init_tokens(&mut l, 1100);
    approve_and_transfer(&mut l, ALICE, BOB, 100);
    approve(&mut l, ALICE, POOL);
    approve(&mut l, BOB, POOL);
    init_dex(&mut l, &mut p, 100, 1000);
    assert_eq!(p.buy_token(&mut l, BOB, TOKEN_1_ID, 100 * MIL), Ok(()));
    assert_eq!(l.balance_of(POOL, TOKEN_1_ID), Ok(200_000_000));
    assert_eq!(l.balance_of(POOL, TOKEN_2_ID), Ok(502_512_563));
    assert_eq!(p.get_liquidity(ALICE), 1100 * MIL);
    assert_eq!(p.withdraw(&mut l, ALICE, 90), Ok(()));
    assert_eq!(l.balance_of(ALICE, TOKEN_1_ID), Ok(1080_000_000));
    assert_eq!(l.balance_of(ALICE, TOKEN_2_ID), Ok(452_261_307));
    assert_eq!(p.get_liquidity(ALICE), 110_000_000);
}

#[test]
fn withdraw_single_token_should_work_1() {
    let (mut l, mut p) = new_system();
    init_tokens(&mut l, 1000);
    approve(&mut l, ALICE, POOL);
    init_dex(&mut l, &mut p, 100, 100);
    assert_eq!(p.get_liquidity(ALICE), 200 * MIL);
    // withdraw 50% of token_1 and buy token_1 for 50% of the token_2 share:
    // 50 + 0.99 * 50 * 50 / (100 + 0.99 * 50) = 50 + 16.555183
    assert_eq!(p.withdraw_single_token(&mut l, ALICE, TOKEN_1_ID, 50), Ok(()));
    assert_eq!(l.balance_of(POOL, TOKEN_1_ID), Ok(334_448_17));
    assert_eq!(l.balance_of(POOL, TOKEN_2_ID), Ok(100_000_000));
    assert_eq!(l.balance_of(ALICE, TOKEN_1_ID), Ok(966_555_183));
    assert_eq!(l.balance_of(ALICE, TOKEN_2_ID), Ok(900_000_000));
    assert_eq!(p.get_liquidity(ALICE), 100_000_000);
    assert_eq!(p.withdraw(&mut l, ALICE, 100), Ok(()));
    assert_eq!(l.balance_of(POOL, TOKEN_1_ID), Ok(0));
    assert_eq!(l.balance_of(POOL, TOKEN_2_ID), Ok(0));
    assert_eq!(l.balance_of(ALICE, TOKEN_1_ID), Ok(1000_000_000));
    assert_eq!(l.balance_of(ALICE, TOKEN_2_ID), Ok(1000_000_000));
}

#[test]
fn withdraw_single_token_should_work_2() {
    let (mut l, mut p) = new_system();
    init_tokens(&mut l, 200);
    approve_and_transfer(&mut l, ALICE, BOB, 100);
    approve(&mut l, ALICE, POOL);
    approve(&mut l, BOB, POOL);
    init_dex(&mut l, &mut p, 100, 100);
    assert_eq!(p.deposit(&mut l, BOB, TOKEN_1_ID, 100 * MIL), Ok(()));
    assert_eq!(l.balance_of(POOL, TOKEN_1_ID), Ok(200_000_000));
    assert_eq!(l.balance_of(POOL, TOKEN_2_ID), Ok(200_000_000));
    assert_eq!(p.get_pool_share(ALICE), Ok(Fraction::from_percent(50)));
    assert_eq!(p.get_pool_share(BOB), Ok(Fraction::from_percent(50)));
    // withdraw 75% of token_1 and buy token_1 for 75% of the token_2 share:
    // 75 + 0.99 * 75 * 125 / (200 + 0.99 * 75) = 75 + 33.842297
    assert_eq!(p.withdraw_single_token(&mut l, ALICE, TOKEN_1_ID, 75), Ok(()));
    assert_eq!(l.balance_of(POOL, TOKEN_1_ID), Ok(91_157_703));
    assert_eq!(l.balance_of(POOL, TOKEN_2_ID), Ok(200_000_000));
    assert_eq!(l.balance_of(ALICE, TOKEN_1_ID), Ok(108_842_297));
    assert_eq!(l.balance_of(ALICE, TOKEN_2_ID), Ok(0));
    assert_eq!(p.get_pool_share(ALICE), Ok(Fraction::from_percent(20)));
    assert_eq!(p.get_pool_share(BOB), Ok(Fraction::from_percent(80)));
    assert_eq!(p.withdraw(&mut l, BOB, 100), Ok(()));
    assert_eq!(p.buy_token(&mut l, BOB, TOKEN_2_ID, 50 * MIL), Ok(()));
    assert_eq!(p.get_pool_share(ALICE), Ok(Fraction::from_percent(100)));
}

#[test]
fn withdraw_should_fail() {
    let (mut l, mut p) = new_system();
    init_tokens(&mut l, 1000);
    approve(&mut l, ALICE, POOL);
    init_dex(&mut l, &mut p, 100, 1000);
    // 100x1000 => 200x500
    assert_eq!(p.buy_token(&mut l, ALICE, TOKEN_1_ID, 100 * MIL), Ok(()));
    assert_eq!(p.get_liquidity(ALICE), 1100 * MIL);
    assert_eq!(p.withdraw(&mut l, ALICE, 0), Err(Error::InvalidShare));
    assert_eq!(p.withdraw(&mut l, ALICE, 101), Err(Error::InvalidShare));
}

#[test]
fn deposit_withdraw_should_work_1() {
    let (mut l, mut p) = new_system();
    init_tokens(&mut l, 1000);
    approve_and_transfer(&mut l, ALICE, BOB, 200);
    approve(&mut l, ALICE, POOL);
    approve(&mut l, BOB, POOL);
    init_dex(&mut l, &mut p, 100, 200);
    assert_eq!(p.deposit(&mut l, BOB, TOKEN_1_ID, 100 * MIL), Ok(()));
    assert_eq!(l.balance_of(POOL, TOKEN_1_ID), Ok(200_000_000));
    assert_eq!(l.balance_of(POOL, TOKEN_2_ID), Ok(400_000_000));
    assert_eq!(p.buy_token(&mut l, ALICE, TOKEN_1_ID, 100 * MIL), Ok(()));
    assert_eq!(l.balance_of(POOL, TOKEN_1_ID), Ok(300_000_000));
    assert_eq!(l.balance_of(POOL, TOKEN_2_ID), Ok(267_558_529));
    assert_eq!(l.balance_of(ALICE, TOKEN_1_ID), Ok(600_000_000));
    assert_eq!(l.balance_of(ALICE, TOKEN_2_ID), Ok(732_441_471));
    assert_eq!(p.get_liquidity(ALICE), 300_000_000);
    assert_eq!(p.withdraw(&mut l, ALICE, 50), Ok(()));
    assert_eq!(l.balance_of(ALICE, TOKEN_1_ID), Ok(675_000_000));
    assert_eq!(l.balance_of(ALICE, TOKEN_2_ID), Ok(799_331_103));
    assert_eq!(p.get_liquidity(ALICE), 150_000_000);
}

#[test]
fn deposit_withdraw_should_work_2() {
    let (mut l, mut p) = new_system();
    init_tokens(&mut l, 1000);
    approve_and_transfer(&mut l, ALICE, BOB, 300);
    approve(&mut l, ALICE, POOL);
    approve(&mut l, BOB, POOL);
    init_dex(&mut l, &mut p, 100, 200);
    assert_eq!(p.deposit(&mut l, BOB, TOKEN_1_ID, 100 * MIL), Ok(()));
    assert_eq!(p.deposit(&mut l, BOB, TOKEN_2_ID, 50 * MIL), Ok(()));
    assert_eq!(p.deposit(&mut l, ALICE, TOKEN_2_ID, 100 * MIL), Ok(()));
    assert_eq!(p.get_liquidity(BOB), 375_000_000);
    assert_eq!(p.get_liquidity(ALICE), 450_000_000);
    assert_eq!(p.withdraw(&mut l, ALICE, 100), Ok(()));
    assert_eq!(p.get_liquidity(ALICE), 0);
    assert_eq!(l.balance_of(POOL, TOKEN_1_ID), Ok(125_000_000));
    assert_eq!(l.balance_of(POOL, TOKEN_2_ID), Ok(250_000_000));
    assert_eq!(l.balance_of(ALICE, TOKEN_1_ID), Ok(700_000_000));
    assert_eq!(l.balance_of(ALICE, TOKEN_2_ID), Ok(700_000_000));
    assert_eq!(p.withdraw(&mut l, BOB, 100), Ok(()));
    assert_eq!(p.get_liquidity(BOB), 0);
    assert_eq!(l.balance_of(POOL, TOKEN_1_ID), Ok(0));
    assert_eq!(l.balance_of(POOL, TOKEN_2_ID), Ok(0));
    assert_eq!(l.balance_of(BOB, TOKEN_1_ID), Ok(300_000_000));
    assert_eq!(l.balance_of(BOB, TOKEN_2_ID), Ok(300_000_000));
}

#[test]
fn general_test_1() {
    let (mut l, mut p) = new_system();
    init_tokens(&mut l, 3000);
    approve_and_transfer(&mut l, ALICE, BOB, 500);
    approve_and_transfer(&mut l, ALICE, CHARLIE, 500);
    approve(&mut l, ALICE, POOL);
    approve(&mut l, BOB, POOL);
    approve(&mut l, CHARLIE, POOL);
    init_dex(&mut l, &mut p, 500, 1000);
    assert_eq!(p.get_total_liquidity().unwrap(), 1500_000_000);

    // 600x834.724541
    assert_eq!(p.buy_token(&mut l, BOB, TOKEN_1_ID, 100 * MIL), Ok(()));
    assert_eq!(p.get_total_liquidity().unwrap(), 1500_0000_00);
    assert_eq!(l.balance_of(POOL, TOKEN_1_ID), Ok(600_000_000));
    assert_eq!(l.balance_of(POOL, TOKEN_2_ID), Ok(834_724_541));

    assert_eq!(p.deposit(&mut l, BOB, TOKEN_2_ID, 50 * MIL), Ok(()));
    assert_eq!(p.get_total_liquidity().unwrap(), 1585_939_999);
    assert_eq!(l.balance_of(POOL, TOKEN_1_ID), Ok(635_939_999));
    assert_eq!(l.balance_of(POOL, TOKEN_2_ID), Ok(884_724_541));

    assert_eq!(p.deposit(&mut l, CHARLIE, TOKEN_2_ID, 250 * MIL), Ok(()));
    assert_eq!(p.get_total_liquidity().unwrap(), 2015_639_998);
    assert_eq!(l.balance_of(POOL, TOKEN_1_ID), Ok(815_639_998));
    assert_eq!(l.balance_of(POOL, TOKEN_2_ID), Ok(1134_724_541));

    assert_eq!(p.withdraw(&mut l, ALICE, 50), Ok(()));
    assert_eq!(p.get_total_liquidity().unwrap(), 1265_639_999);
    assert_eq!(l.balance_of(POOL, TOKEN_1_ID), Ok(512_148_304));
    assert_eq!(l.balance_of(POOL, TOKEN_2_ID), Ok(712_504_598));

    assert_eq!(p.buy_token(&mut l, ALICE, TOKEN_1_ID, 500 * MIL), Ok(()));
    assert_eq!(p.get_total_liquidity().unwrap(), 1265_639_999);
    assert_eq!(l.balance_of(POOL, TOKEN_1_ID), Ok(1012_148_304));
    assert_eq!(l.balance_of(POOL, TOKEN_2_ID), Ok(362_318_062));

    assert_eq!(p.withdraw(&mut l, CHARLIE, 100), Ok(()));
    assert_eq!(p.withdraw(&mut l, BOB, 100), Ok(()));
    assert_eq!(p.get_total_liquidity().unwrap(), 750_000_002);
    assert_eq!(l.balance_of(POOL, TOKEN_1_ID), Ok(599_784_482));
    assert_eq!(l.balance_of(POOL, TOKEN_2_ID), Ok(214_704_456));

    assert_eq!(p.withdraw(&mut l, ALICE, 100), Ok(()));
    // 0.000002
    assert_eq!(p.get_total_liquidity().unwrap(), 2);
    assert_eq!(l.balance_of(POOL, TOKEN_1_ID), Ok(1));
    assert_eq!(l.balance_of(POOL, TOKEN_2_ID), Ok(0));
    assert_eq!(l.balance_of(ALICE, TOKEN_1_ID), Ok(1903_276_175));
    assert_eq!(l.balance_of(ALICE, TOKEN_2_ID), Ok(1987_110_935));
}

#[test]
fn incentivize_model_test() {
    let (mut l, mut p) = new_system();
    init_tokens(&mut l, 5000);
    approve_and_transfer(&mut l, ALICE, BOB, 500);
    approve_and_transfer(&mut l, ALICE, CHARLIE, 1000);
    approve_and_transfer(&mut l, ALICE, MARRY, 1000);
    approve_and_transfer(&mut l, ALICE, JOHN, 1000);
    approve(&mut l, ALICE, POOL);
    approve(&mut l, BOB, POOL);
    approve(&mut l, CHARLIE, POOL);
    approve(&mut l, MARRY, POOL);
    approve(&mut l, JOHN, POOL);
    init_dex(&mut l, &mut p, 1000, 1000);
    assert_eq!(p.deposit(&mut l, BOB, TOKEN_1_ID, 500 * MIL), Ok(()));

    assert_eq!(p.buy_token(&mut l, CHARLIE, TOKEN_1_ID, 250 * MIL), Ok(()));
    assert_eq!(p.buy_token(&mut l, MARRY, TOKEN_2_ID, 400 * MIL), Ok(()));
    assert_eq!(p.buy_token(&mut l, JOHN, TOKEN_1_ID, 100 * MIL), Ok(()));
    assert_eq!(p.buy_token(&mut l, CHARLIE, TOKEN_2_ID, 100 * MIL), Ok(()));
    assert_eq!(p.buy_token(&mut l, JOHN, TOKEN_2_ID, 500 * MIL), Ok(()));
    assert_eq!(p.buy_token(&mut l, MARRY, TOKEN_1_ID, 500 * MIL), Ok(()));

    assert_eq!(l.balance_of(POOL, TOKEN_1_ID), Ok(1543_933_772));
    assert_eq!(l.balance_of(POOL, TOKEN_2_ID), Ok(1472_913_599));

    // 16.847371
    assert_eq!(p.get_total_reward(&l), Ok(16_847_371));
    assert_eq!(p.get_liquidity(ALICE), 2000_000_000);
    assert_eq!(p.withdraw(&mut l, ALICE, 100), Ok(()));
    // ALICE gained 11.231578 tokens as reward
    assert_eq!(l.balance_of(ALICE, TOKEN_1_ID), Ok(1529_289_180));
    assert_eq!(l.balance_of(ALICE, TOKEN_2_ID), Ok(1481_942_398));
    assert_eq!(p.get_liquidity(BOB), 1000_000_000);
    assert_eq!(p.withdraw(&mut l, BOB, 100), Ok(()));
    // BOB gained 5.615793 tokens as reward
    assert_eq!(l.balance_of(BOB, TOKEN_1_ID), Ok(514_644_591));
    assert_eq!(l.balance_of(BOB, TOKEN_2_ID), Ok(490_971_200));
}

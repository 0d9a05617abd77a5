//! The treasury behaviours: execution revenue settling into the sink
//! account, dust sweeping on transfers, and the threshold-gated collator
//! reward payout.

use settlement_core::assets::AssetBag;
use settlement_core::engine::EngineConfig;
use settlement_core::engine::FeeRate;
use settlement_core::engine::Instruction;
use settlement_core::engine::Outcome;
use settlement_core::engine::WeightLimit;
use settlement_core::fees::FeeCredit;
use settlement_core::fees::FeeDistributor;
use settlement_core::ledger::Ledger;

const TREASURY: u64 = 900;
const POOL: u64 = 901;
const ALICE: u64 = 1001;
const BOB: u64 = 1002;
const PARENT: u64 = 42;

const RELAY_CHAIN_CURRENCY: u64 = 1;
const LIQUID_CURRENCY: u64 = 2;
const USD_CURRENCY: u64 = 3;
const NATIVE_CURRENCY: u64 = 0;

const RELAY_ED: u128 = 10_000_000;
const LIQUID_ED: u128 = 50_000_000;
const USD_ED: u128 = 10_000_000;
const NATIVE_ED: u128 = 100_000_000_000;

fn relay_dollar() -> u128 {
    10_000_000_000
}

fn native_dollar() -> u128 {
    1_000_000_000_000
}

fn test_ledger() -> Ledger {
    let mut minimums = AssetBag::new();
    minimums.set(RELAY_CHAIN_CURRENCY, RELAY_ED);
    minimums.set(LIQUID_CURRENCY, LIQUID_ED);
    minimums.set(USD_CURRENCY, USD_ED);
    minimums.set(NATIVE_CURRENCY, NATIVE_ED);
    Ledger::new(TREASURY, POOL, minimums)
}

#[test]
fn treasury_should_take_xcm_execution_revenue() {
    let mut ledger = test_ledger();
    let dot_amount = 1000 * relay_dollar();
    let shallow_weight: u64 = 3_000_000;

    let config = EngineConfig {
        trusted_origin: PARENT,
        unit_weight: 1_000_000,
        max_weight: shallow_weight,
        rates: vec![FeeRate { asset: RELAY_CHAIN_CURRENCY, num: 93_390_000_000, den: 1_000_000_000_000 }],
    };

    let msg = vec![
        Instruction::ReserveAssetDeposited { asset: RELAY_CHAIN_CURRENCY, amount: dot_amount },
        Instruction::BuyExecution {
            fee_asset: RELAY_CHAIN_CURRENCY,
            limit: WeightLimit::Limited(shallow_weight),
        },
        Instruction::DepositAsset { beneficiary: ALICE },
    ];

    let debt = config.weigh(&msg);
    assert_eq!(debt, shallow_weight);

    assert_eq!(ledger.free_balance(ALICE, RELAY_CHAIN_CURRENCY), 0);
    assert_eq!(ledger.free_balance(TREASURY, RELAY_CHAIN_CURRENCY), 0);

    let (outcome, leftover) = config.execute(&mut ledger, PARENT, &msg);
    assert_eq!(outcome, Outcome::Complete { used: shallow_weight });
    assert_eq!(leftover.get(RELAY_CHAIN_CURRENCY), 0);

    let actual_amount = ledger.free_balance(ALICE, RELAY_CHAIN_CURRENCY);
    assert_eq!(actual_amount, 9_999_999_719_830);

    assert_eq!(ledger.free_balance(TREASURY, RELAY_CHAIN_CURRENCY), dot_amount - actual_amount);
}

#[test]
fn treasury_handles_dust_correctly() {
    let mut ledger = test_ledger();
    for who in [BOB, ALICE] {
        ledger.credit(who, RELAY_CHAIN_CURRENCY, RELAY_ED);
        ledger.credit(who, LIQUID_CURRENCY, LIQUID_ED);
        ledger.credit(who, USD_CURRENCY, USD_ED);
    }
    let relay_ed = RELAY_ED;
    let liquid_ed = LIQUID_ED;
    let usd_ed = USD_ED;

    // Empty treasury receives dust tokens of the relay currency
    assert_eq!(ledger.free_balance(TREASURY, RELAY_CHAIN_CURRENCY), 0);
    assert!(ledger.transfer(ALICE, BOB, RELAY_CHAIN_CURRENCY, 1).is_ok());
    assert_eq!(ledger.free_balance(BOB, RELAY_CHAIN_CURRENCY), relay_ed + 1);

    // ALICE's account is reaped and the treasury receives the dust
    assert_eq!(ledger.free_balance(ALICE, RELAY_CHAIN_CURRENCY), 0);
    // The treasury can hold less than the existential deposit
    assert_eq!(ledger.free_balance(TREASURY, RELAY_CHAIN_CURRENCY), relay_ed - 1);

    // The treasury can send funds when under the existential deposit
    assert!(ledger.transfer(TREASURY, BOB, RELAY_CHAIN_CURRENCY, relay_ed - 2).is_ok());
    assert_eq!(ledger.free_balance(TREASURY, RELAY_CHAIN_CURRENCY), 1);

    assert!(ledger.transfer(BOB, ALICE, RELAY_CHAIN_CURRENCY, relay_ed).is_ok());
    assert_eq!(ledger.free_balance(ALICE, RELAY_CHAIN_CURRENCY), relay_ed);
    assert_eq!(ledger.free_balance(BOB, RELAY_CHAIN_CURRENCY), 0);
    assert_eq!(ledger.free_balance(TREASURY, RELAY_CHAIN_CURRENCY), relay_ed);
    assert!(ledger.transfer(ALICE, TREASURY, RELAY_CHAIN_CURRENCY, relay_ed).is_ok());

    // The treasury is not reaped when going from over the existential
    // deposit back under it
    assert_eq!(ledger.free_balance(TREASURY, RELAY_CHAIN_CURRENCY), 2 * relay_ed);
    assert!(ledger.transfer(TREASURY, ALICE, RELAY_CHAIN_CURRENCY, relay_ed + 1).is_ok());
    assert_eq!(ledger.free_balance(ALICE, RELAY_CHAIN_CURRENCY), relay_ed + 1);
    assert_eq!(ledger.free_balance(TREASURY, RELAY_CHAIN_CURRENCY), relay_ed - 1);

    // Empty treasury receives dust tokens of the liquid currency
    assert_eq!(ledger.free_balance(TREASURY, LIQUID_CURRENCY), 0);
    assert!(ledger.transfer(ALICE, BOB, LIQUID_CURRENCY, 1).is_ok());
    assert_eq!(ledger.free_balance(BOB, LIQUID_CURRENCY), liquid_ed + 1);
    assert_eq!(ledger.free_balance(ALICE, LIQUID_CURRENCY), 0);
    assert_eq!(ledger.free_balance(TREASURY, LIQUID_CURRENCY), liquid_ed - 1);

    // Empty treasury receives dust tokens of the USD currency
    assert_eq!(ledger.free_balance(TREASURY, USD_CURRENCY), 0);
    assert!(ledger.transfer(ALICE, BOB, USD_CURRENCY, 1).is_ok());
    assert_eq!(ledger.free_balance(BOB, USD_CURRENCY), usd_ed + 1);
    assert_eq!(ledger.free_balance(ALICE, USD_CURRENCY), 0);
    assert_eq!(ledger.free_balance(TREASURY, USD_CURRENCY), usd_ed - 1);
}

#[test]
fn treasury_handles_collator_rewards_correctly() {
    let mut ledger = test_ledger();
    ledger.credit(ALICE, NATIVE_CURRENCY, native_dollar());
    // The pot (reward pool) starts with its existential deposit,
    // ten cents of the native currency.
    ledger.credit(POOL, NATIVE_CURRENCY, NATIVE_ED);
    assert_eq!(ledger.free_balance(POOL, NATIVE_CURRENCY), 100_000_000_000);
    assert_eq!(ledger.free_balance(ALICE, NATIVE_CURRENCY), native_dollar());

    let min_reward: u128 = 100_000_000_000;
    // A payout happens once half of the distributable pool reaches the
    // minimum reward, i.e. once the distributable pool reaches twice it.
    let distributor =
        FeeDistributor { pool_share_num: 1, pool_share_den: 5, payout_threshold: 2 * min_reward };

    // Only 20% of the fee goes into the pot
    let tip = FeeCredit::new(NATIVE_CURRENCY, (min_reward - 1) * 10);
    let fee = FeeCredit::new(NATIVE_CURRENCY, 0);
    distributor.distribute(&mut ledger, fee);
    distributor.distribute(&mut ledger, tip);

    // The amount above the existential deposit is below the payout threshold.
    assert_eq!(ledger.free_balance(POOL, NATIVE_CURRENCY), 299_999_999_998);

    distributor.note_author(&mut ledger, NATIVE_CURRENCY, BOB);
    assert_eq!(ledger.free_balance(POOL, NATIVE_CURRENCY), 299_999_999_998);
    assert_eq!(ledger.free_balance(BOB, NATIVE_CURRENCY), 0);

    // Put a little more money into the pot
    let tip = FeeCredit::new(NATIVE_CURRENCY, 10);
    let fee = FeeCredit::new(NATIVE_CURRENCY, 0);
    distributor.distribute(&mut ledger, fee);
    distributor.distribute(&mut ledger, tip);

    // Now the amount above the existential deposit reaches the threshold.
    assert_eq!(ledger.free_balance(POOL, NATIVE_CURRENCY), 300_000_000_000);

    // Splits half of the distributable 200_000_000_000 to BOB
    distributor.note_author(&mut ledger, NATIVE_CURRENCY, BOB);

    assert_eq!(ledger.free_balance(POOL, NATIVE_CURRENCY), 200_000_000_000);
    assert_eq!(ledger.free_balance(BOB, NATIVE_CURRENCY), 100_000_000_000);
}

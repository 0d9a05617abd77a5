//! Unit tests for the ledger, the fee distributor, and the settlement
//! engine: the spec scenarios, each error variant, and the exact formulas.

use settlement_core::assets::AssetBag;
use settlement_core::engine::EngineConfig;
use settlement_core::engine::ExecError;
use settlement_core::engine::FeeRate;
use settlement_core::engine::Instruction;
use settlement_core::engine::Outcome;
use settlement_core::engine::WeightLimit;
use settlement_core::fees::FeeCredit;
use settlement_core::fees::FeeDistributor;
use settlement_core::ledger::Ledger;
use settlement_core::ledger::LedgerError;

const SINK: u64 = 10;
const POOL: u64 = 11;
const X: u64 = 21;
const Y: u64 = 22;
const ASSET: u64 = 7;
const ED: u128 = 100;

fn ledger_with(balances: &[(u64, u128)]) -> Ledger {
    let mut minimums = AssetBag::new();
    minimums.set(ASSET, ED);
    let mut ledger = Ledger::new(SINK, POOL, minimums);
    for &(who, amount) in balances {
        ledger.credit(who, ASSET, amount);
    }
    ledger
}

#[test]
fn scenario_a_sender_reaped_dust_to_sink() {
    // X holds ED and Y holds ED; X transfers 1 to Y: Y ends at ED + 1,
    // X is reaped to 0, and the sink gains the ED - 1 remainder.
    let mut ledger = ledger_with(&[(X, ED), (Y, ED)]);
    assert!(ledger.transfer(X, Y, ASSET, 1).is_ok());
    assert_eq!(ledger.free_balance(Y, ASSET), ED + 1);
    assert_eq!(ledger.free_balance(X, ASSET), 0);
    assert_eq!(ledger.free_balance(SINK, ASSET), ED - 1);
}

#[test]
fn scenario_b_sink_spends_below_minimum() {
    // The sink holds 2*ED and transfers ED + 1 to X: the sink keeps ED - 1
    // without being reaped, X ends at ED + 1.
    let mut ledger = ledger_with(&[(SINK, 2 * ED)]);
    assert!(ledger.transfer(SINK, X, ASSET, ED + 1).is_ok());
    assert_eq!(ledger.free_balance(SINK, ASSET), ED - 1);
    assert_eq!(ledger.free_balance(X, ASSET), ED + 1);
}

#[test]
fn sink_transfers_at_balance_one() {
    let mut ledger = ledger_with(&[(SINK, 1)]);
    assert!(ledger.transfer(SINK, POOL, ASSET, 1).is_ok());
    assert_eq!(ledger.free_balance(SINK, ASSET), 0);
    assert_eq!(ledger.free_balance(POOL, ASSET), 1);
}

#[test]
fn credit_below_minimum_is_swept() {
    // A first credit below the minimum creates the account and sweeps it
    // at once: the account reads 0 and the sink holds the dust.
    let mut ledger = ledger_with(&[]);
    ledger.credit(X, ASSET, ED - 1);
    assert_eq!(ledger.free_balance(X, ASSET), 0);
    assert_eq!(ledger.free_balance(SINK, ASSET), ED - 1);
    assert_eq!(ledger.total_issuance(ASSET), ED - 1);
}

#[test]
fn debit_insufficient_balance_fails_without_effect() {
    let mut ledger = ledger_with(&[(X, ED)]);
    assert_eq!(ledger.debit(X, ASSET, ED + 1), Err(LedgerError::InsufficientBalance));
    assert_eq!(ledger.transfer(X, Y, ASSET, ED + 1), Err(LedgerError::InsufficientBalance));
    assert_eq!(ledger.free_balance(X, ASSET), ED);
    assert_eq!(ledger.free_balance(Y, ASSET), 0);
    assert_eq!(ledger.total_issuance(ASSET), ED);
}

#[test]
fn transfer_conserves_total_issuance() {
    let mut ledger = ledger_with(&[(X, 3 * ED), (Y, ED)]);
    assert_eq!(ledger.total_issuance(ASSET), 4 * ED);
    // A dust-sweeping transfer moves value around but mints or burns nothing.
    assert!(ledger.transfer(X, Y, ASSET, 2 * ED + 1).is_ok());
    assert_eq!(ledger.free_balance(X, ASSET), 0);
    assert_eq!(ledger.free_balance(Y, ASSET), 3 * ED + 1);
    assert_eq!(ledger.free_balance(SINK, ASSET), ED - 1);
    assert_eq!(ledger.total_issuance(ASSET), 4 * ED);
}

#[test]
fn debit_reduces_total_by_exactly_the_amount() {
    // The debited amount leaves supply; the swept dust does not.
    let mut ledger = ledger_with(&[(X, ED)]);
    assert!(ledger.debit(X, ASSET, 1).is_ok());
    assert_eq!(ledger.free_balance(X, ASSET), 0);
    assert_eq!(ledger.free_balance(SINK, ASSET), ED - 1);
    assert_eq!(ledger.total_issuance(ASSET), ED - 1);
}

#[test]
fn fee_credit_merge_and_burn() {
    let a = FeeCredit::new(ASSET, 30);
    let b = FeeCredit::new(ASSET, 12);
    let merged = a.merge(b);
    assert_eq!(merged.burn(), 42);
}

#[test]
fn distribute_splits_exact_fraction() {
    // With a 1/5 share, 7 units put 1 into the pool and burn the other 6.
    let mut ledger = ledger_with(&[]);
    let distributor = FeeDistributor { pool_share_num: 1, pool_share_den: 5, payout_threshold: 0 };
    let burned = distributor.distribute(&mut ledger, FeeCredit::new(ASSET, 7));
    assert_eq!(burned, 6);
    assert_eq!(ledger.free_balance(POOL, ASSET), 1);
    assert_eq!(ledger.total_issuance(ASSET), 1);
}

#[test]
fn reward_gating_below_threshold_pays_nothing() {
    let mut ledger = ledger_with(&[(POOL, ED + 9)]);
    let distributor = FeeDistributor { pool_share_num: 1, pool_share_den: 5, payout_threshold: 10 };
    let paid = distributor.note_author(&mut ledger, ASSET, X);
    assert_eq!(paid, 0);
    assert_eq!(ledger.free_balance(POOL, ASSET), ED + 9);
    assert_eq!(ledger.free_balance(X, ASSET), 0);
}

#[test]
fn reward_gating_at_threshold_pays_half() {
    // P = 2*ED + 1 distributable: the author gets floor(P/2) = ED, the pool
    // keeps the odd remainder on top of its base reserve.
    let mut ledger = ledger_with(&[(POOL, 3 * ED + 1)]);
    let distributor =
        FeeDistributor { pool_share_num: 1, pool_share_den: 5, payout_threshold: 2 * ED };
    let paid = distributor.note_author(&mut ledger, ASSET, X);
    assert_eq!(paid, ED);
    assert_eq!(ledger.free_balance(POOL, ASSET), 2 * ED + 1);
    assert_eq!(ledger.free_balance(X, ASSET), ED);
    assert_eq!(ledger.total_issuance(ASSET), 3 * ED + 1);
}

fn test_config() -> EngineConfig {
    EngineConfig {
        trusted_origin: 1,
        unit_weight: 10,
        max_weight: 1_000,
        rates: vec![FeeRate { asset: ASSET, num: 3, den: 2 }],
    }
}

#[test]
fn weighing_is_deterministic() {
    let config = test_config();
    let msg = vec![
        Instruction::ReserveAssetDeposited { asset: ASSET, amount: 1_000 },
        Instruction::DepositAsset { beneficiary: X },
    ];
    let first = config.weigh(&msg);
    let second = config.weigh(&msg);
    assert_eq!(first, second);
    assert_eq!(first, 20);
}

#[test]
fn weighing_overflow_falls_back_to_zero() {
    let config = EngineConfig {
        trusted_origin: 1,
        unit_weight: u64::MAX,
        max_weight: 1_000,
        rates: vec![],
    };
    let msg = vec![
        Instruction::DepositAsset { beneficiary: X },
        Instruction::DepositAsset { beneficiary: X },
    ];
    assert_eq!(config.weigh(&msg), 0);
}

#[test]
fn scenario_d_message_settles_fee_to_sink() {
    // A message deposits 1000 units, buys execution for the message's
    // weight W = 30 costing fee(W) = 45, and deposits the remainder: the
    // beneficiary receives 1000 - 45, the sink receives 45, and the outcome
    // is complete with exactly W used.
    let mut ledger = ledger_with(&[]);
    let config = test_config();
    let msg = vec![
        Instruction::ReserveAssetDeposited { asset: ASSET, amount: 1_000 },
        Instruction::BuyExecution { fee_asset: ASSET, limit: WeightLimit::Unlimited },
        Instruction::DepositAsset { beneficiary: X },
    ];
    let (outcome, leftover) = config.execute(&mut ledger, 1, &msg);
    assert_eq!(outcome, Outcome::Complete { used: 30 });
    assert_eq!(ledger.free_balance(X, ASSET), 955);
    assert_eq!(ledger.free_balance(SINK, ASSET), 45);
    assert_eq!(ledger.total_issuance(ASSET), 1_000);
    assert_eq!(leftover.get(ASSET), 0);
}

#[test]
fn untrusted_origin_is_rejected_without_effect() {
    let mut ledger = ledger_with(&[]);
    let config = test_config();
    let msg = vec![Instruction::ReserveAssetDeposited { asset: ASSET, amount: 1_000 }];
    let (outcome, leftover) = config.execute(&mut ledger, 2, &msg);
    assert_eq!(outcome, Outcome::Error { error: ExecError::UntrustedOrigin });
    assert_eq!(ledger.total_issuance(ASSET), 0);
    assert_eq!(leftover.get(ASSET), 0);
}

#[test]
fn budget_exhaustion_halts_with_effects_kept() {
    // The hard ceiling caps the budget below the message's weight: the
    // first instruction commits, the second halts the run.
    let mut ledger = ledger_with(&[]);
    let config = EngineConfig {
        trusted_origin: 1,
        unit_weight: 10,
        max_weight: 15,
        rates: vec![FeeRate { asset: ASSET, num: 3, den: 2 }],
    };
    let msg = vec![
        Instruction::ReserveAssetDeposited { asset: ASSET, amount: 1_000 },
        Instruction::DepositAsset { beneficiary: X },
    ];
    let (outcome, leftover) = config.execute(&mut ledger, 1, &msg);
    assert_eq!(outcome, Outcome::Incomplete { used: 10, error: ExecError::WeightLimitReached });
    assert_eq!(leftover.get(ASSET), 1_000);
    assert_eq!(ledger.free_balance(X, ASSET), 0);
}

#[test]
fn buy_execution_with_unpayable_asset_halts() {
    let mut ledger = ledger_with(&[]);
    let config = test_config();
    let other_asset: u64 = 99;
    let msg = vec![
        Instruction::ReserveAssetDeposited { asset: other_asset, amount: 1_000 },
        Instruction::BuyExecution { fee_asset: other_asset, limit: WeightLimit::Unlimited },
    ];
    let (outcome, leftover) = config.execute(&mut ledger, 1, &msg);
    assert_eq!(outcome, Outcome::Incomplete { used: 10, error: ExecError::AssetNotPayable });
    assert_eq!(leftover.get(other_asset), 1_000);
}

#[test]
fn buy_execution_too_expensive_halts() {
    // fee(20) = 30 but only 29 units are held.
    let mut ledger = ledger_with(&[]);
    let config = test_config();
    let msg = vec![
        Instruction::ReserveAssetDeposited { asset: ASSET, amount: 29 },
        Instruction::BuyExecution { fee_asset: ASSET, limit: WeightLimit::Unlimited },
    ];
    let (outcome, leftover) = config.execute(&mut ledger, 1, &msg);
    assert_eq!(outcome, Outcome::Incomplete { used: 10, error: ExecError::TooExpensive });
    assert_eq!(leftover.get(ASSET), 29);
    assert_eq!(ledger.free_balance(SINK, ASSET), 0);
}

#[test]
fn buy_execution_limit_below_weight_halts() {
    let mut ledger = ledger_with(&[]);
    let config = test_config();
    let msg = vec![
        Instruction::ReserveAssetDeposited { asset: ASSET, amount: 1_000 },
        Instruction::BuyExecution { fee_asset: ASSET, limit: WeightLimit::Limited(19) },
    ];
    let (outcome, _) = config.execute(&mut ledger, 1, &msg);
    assert_eq!(outcome, Outcome::Incomplete { used: 10, error: ExecError::WeightLimitReached });
}

#[test]
fn reserve_deposit_overflow_halts() {
    let mut ledger = ledger_with(&[]);
    let config = test_config();
    let msg = vec![
        Instruction::ReserveAssetDeposited { asset: ASSET, amount: u128::MAX },
        Instruction::ReserveAssetDeposited { asset: ASSET, amount: 1 },
    ];
    let (outcome, leftover) = config.execute(&mut ledger, 1, &msg);
    assert_eq!(outcome, Outcome::Incomplete { used: 10, error: ExecError::Overflow });
    assert_eq!(leftover.get(ASSET), u128::MAX);
}

#[test]
fn deposit_below_minimum_is_swept_to_sink() {
    // A settled deposit is subject to the same dust rules as any credit.
    let mut ledger = ledger_with(&[]);
    let config = test_config();
    let msg = vec![
        Instruction::ReserveAssetDeposited { asset: ASSET, amount: ED - 1 },
        Instruction::DepositAsset { beneficiary: X },
    ];
    let (outcome, leftover) = config.execute(&mut ledger, 1, &msg);
    assert_eq!(outcome, Outcome::Complete { used: 20 });
    assert_eq!(ledger.free_balance(X, ASSET), 0);
    assert_eq!(ledger.free_balance(SINK, ASSET), ED - 1);
    assert_eq!(leftover.get(ASSET), 0);
}

#[test]
fn asset_bag_tracks_amounts_per_asset() {
    let mut bag = AssetBag::new();
    assert_eq!(bag.get(ASSET), 0);
    bag.set(ASSET, 5);
    bag.set(9, 7);
    assert_eq!(bag.get(ASSET), 5);
    assert_eq!(bag.get(9), 7);
    bag.set(ASSET, 0);
    assert_eq!(bag.get(ASSET), 0);
    assert_eq!(bag.get(9), 7);
}

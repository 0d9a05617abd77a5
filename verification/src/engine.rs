//! The message settlement engine: interprets an ordered cross-domain
//! instruction sequence from a declared origin. The message is first weighed
//! (an upper bound on its execution cost), then executed in order against a
//! weight budget: reserved deposits accumulate in a holding register,
//! execution purchases pay a per-asset fee out of the held assets into the
//! sink account, and deposits settle the held assets into a beneficiary's
//! ledger balances. Effects committed by earlier instructions survive a halt.

use vstd::prelude::*;

use crate::assets::AssetAmount;
use crate::assets::AssetBag;
use crate::assets::lemma_amount_in_absent;
use crate::assets::lemma_amount_in_at;
use crate::ledger::Ledger;
use crate::ledger::credit_effect;
use crate::ledger::credit_rel;
use crate::ledger::same_config;

verus! {

/// A bound on how much weight an execution purchase may pay for.
#[derive(Clone, Copy, Debug, PartialEq, Eq, Structural)]
pub enum WeightLimit {
    Unlimited,
    Limited(u64),
}

/// One instruction of a cross-domain message, processed strictly in order.
#[derive(Clone, Copy, Debug, PartialEq, Eq, Structural)]
pub enum Instruction {
    /// Brings `amount` of `asset` from outside the ledger into this
    /// execution's holding register.
    ReserveAssetDeposited { asset: u64, amount: u128 },
    /// Pays for this message's weight out of held `fee_asset`, up to `limit`.
    BuyExecution { fee_asset: u64, limit: WeightLimit },
    /// Moves everything in the holding register into `beneficiary`'s
    /// ledger balances.
    DepositAsset { beneficiary: u64 },
}

/// Why a message halted or was rejected.
#[derive(Clone, Copy, Debug, PartialEq, Eq, Structural)]
pub enum ExecError {
    /// The declared origin is not one this engine accepts messages from.
    UntrustedOrigin,
    /// The weight budget cannot cover the next instruction, or an execution
    /// purchase's limit lies below the message's weight.
    WeightLimitReached,
    /// The held fee asset cannot cover the execution fee.
    TooExpensive,
    /// The named asset cannot be used to pay for execution.
    AssetNotPayable,
    /// An amount would not fit the balance type.
    Overflow,
}

/// How interpreting a message ended.
#[derive(Clone, Copy, Debug, PartialEq, Eq, Structural)]
pub enum Outcome {
    /// Every instruction was processed.
    Complete { used: u64 },
    /// Execution halted mid-sequence; effects of earlier instructions remain
    /// committed.
    Incomplete { used: u64, error: ExecError },
    /// The message was rejected before any instruction executed; no effects.
    Error { error: ExecError },
}

/// The weight-to-fee conversion for one fee-payable asset: weight `w` costs
/// `w * num / den` units of the asset, rounded down.
#[derive(Clone, Copy)]
pub struct FeeRate {
    pub asset: u64,
    pub num: u64,
    pub den: u64,
}

/// The first rate configured for `asset`, if any.
pub open spec fn rate_for(s: Seq<FeeRate>, asset: u64) -> Option<FeeRate>
    decreases s.len(),
{
    if s.len() == 0 {
        None
    } else if s[0].asset == asset {
        Some(s[0])
    } else {
        rate_for(s.drop_first(), asset)
    }
}

/// No two rates name the same asset.
pub open spec fn distinct_rates(s: Seq<FeeRate>) -> bool {
    forall|i: int, j: int| 0 <= i < j < s.len() ==> s[i].asset != s[j].asset
}

pub proof fn lemma_rate_for_absent(s: Seq<FeeRate>, asset: u64)
    requires
        forall|k: int| 0 <= k < s.len() ==> s[k].asset != asset,
    ensures
        rate_for(s, asset) is None,
    decreases s.len(),
{
    if s.len() > 0 {
        lemma_rate_for_absent(s.drop_first(), asset);
    }
}

pub proof fn lemma_rate_for_at(s: Seq<FeeRate>, i: int)
    requires
        distinct_rates(s),
        0 <= i < s.len(),
    ensures
        rate_for(s, s[i].asset) == Some(s[i]),
    decreases i,
{
    if i > 0 {
        assert forall|p: int, q: int| 0 <= p < q < s.drop_first().len() implies s.drop_first()[p].asset
            != s.drop_first()[q].asset by {
            assert(s[p + 1].asset != s[q + 1].asset);
        }
        lemma_rate_for_at(s.drop_first(), i - 1);
    }
}

pub proof fn lemma_rate_for_is_element(s: Seq<FeeRate>, asset: u64)
    ensures
        match rate_for(s, asset) {
            Some(r) => r.asset == asset && exists|i: int| 0 <= i < s.len() && s[i] == r,
            None => true,
        },
    decreases s.len(),
{
    if s.len() > 0 && s[0].asset != asset {
        lemma_rate_for_is_element(s.drop_first(), asset);
        match rate_for(s, asset) {
            Some(r) => {
                let i = choose|i: int| 0 <= i < s.drop_first().len() && s.drop_first()[i] == r;
                assert(s[i + 1] == r);
            },
            None => {},
        }
    }
}

/// Whether `limit` permits paying for `w` units of weight.
pub open spec fn limit_allows(limit: WeightLimit, w: u64) -> bool {
    match limit {
        WeightLimit::Unlimited => true,
        WeightLimit::Limited(l) => l >= w,
    }
}

/// The value minted by the reserve-deposit instructions among the first `n`
/// instructions of `msg`, for asset `x`.
pub open spec fn minted_upto(msg: Seq<Instruction>, n: int, x: u64) -> int
    decreases n,
{
    if n <= 0 {
        0
    } else {
        minted_upto(msg, n - 1, x) + (match msg[n - 1] {
            Instruction::ReserveAssetDeposited { asset, amount } => if asset == x {
                amount as int
            } else {
                0
            },
            _ => 0,
        })
    }
}

/// The engine's configuration bundle: the one origin it accepts messages
/// from, the per-instruction unit weight its weigher charges, the hard weight
/// ceiling, and the per-asset weight-to-fee conversions (an asset with no
/// rate is not fee-payable).
pub struct EngineConfig {
    pub trusted_origin: u64,
    pub unit_weight: u64,
    pub max_weight: u64,
    pub rates: Vec<FeeRate>,
}

/// Exactly what one instruction does: how it relates the ledger and the
/// holding register after the step to those before it, and on which states it
/// succeeds. An instruction that fails commits nothing.
pub open spec fn step_rel(
    cfg: EngineConfig,
    pre_l: Ledger,
    pre_h: AssetBag,
    bound: u64,
    instr: Instruction,
    post_l: Ledger,
    post_h: AssetBag,
    r: Result<(), ExecError>,
) -> bool {
    match instr {
        Instruction::ReserveAssetDeposited { asset, amount } => {
            if pre_h.amount_of(asset) + amount <= u128::MAX {
                &&& r == Ok::<(), ExecError>(())
                &&& post_l == pre_l
                &&& post_h.amount_of(asset) == pre_h.amount_of(asset) + amount
                &&& forall|x: u64| x != asset ==> post_h.amount_of(x) == pre_h.amount_of(x)
            } else {
                &&& r == Err::<(), ExecError>(ExecError::Overflow)
                &&& post_l == pre_l
                &&& post_h == pre_h
            }
        },
        Instruction::BuyExecution { fee_asset, limit } => {
            let fee = cfg.fee_of(fee_asset, bound);
            if !cfg.is_payable(fee_asset) {
                &&& r == Err::<(), ExecError>(ExecError::AssetNotPayable)
                &&& post_l == pre_l
                &&& post_h == pre_h
            } else if !limit_allows(limit, bound) {
                &&& r == Err::<(), ExecError>(ExecError::WeightLimitReached)
                &&& post_l == pre_l
                &&& post_h == pre_h
            } else if pre_h.amount_of(fee_asset) < fee {
                &&& r == Err::<(), ExecError>(ExecError::TooExpensive)
                &&& post_l == pre_l
                &&& post_h == pre_h
            } else if pre_l.total_of(fee_asset) + fee > u128::MAX {
                &&& r == Err::<(), ExecError>(ExecError::Overflow)
                &&& post_l == pre_l
                &&& post_h == pre_h
            } else {
                &&& r == Ok::<(), ExecError>(())
                &&& post_h.amount_of(fee_asset) == pre_h.amount_of(fee_asset) - fee
                &&& forall|x: u64| x != fee_asset ==> post_h.amount_of(x) == pre_h.amount_of(x)
                &&& credit_rel(pre_l, post_l, pre_l.sink_account(), fee_asset, fee as u128)
            }
        },
        Instruction::DepositAsset { beneficiary } => {
            if forall|x: u64| pre_l.total_of(x) + pre_h.amount_of(x) <= u128::MAX {
                &&& r == Ok::<(), ExecError>(())
                &&& forall|x: u64|
                    credit_effect(pre_l, post_l, beneficiary, x, pre_h.amount_of(x))
                &&& forall|x: u64| post_h.amount_of(x) == 0
            } else {
                &&& r == Err::<(), ExecError>(ExecError::Overflow)
                &&& post_l == pre_l
                &&& post_h == pre_h
            }
        },
    }
}

/// `states` is a run of the instructions `pfx`, in order: it records the
/// ledger and the holding register before the first instruction, after each
/// instruction, and every adjacent pair is related by one committed step.
pub open spec fn is_run(
    cfg: EngineConfig,
    bound: u64,
    pfx: Seq<Instruction>,
    states: Seq<(Ledger, AssetBag)>,
) -> bool {
    &&& states.len() == pfx.len() + 1
    &&& forall|k: int|
        0 <= k < pfx.len() ==> step_rel(
            cfg,
            states[k].0,
            states[k].1,
            bound,
            pfx[k],
            states[k + 1].0,
            states[k + 1].1,
            Ok::<(), ExecError>(()),
        )
}

/// A holding register with nothing in it.
pub open spec fn all_empty(b: AssetBag) -> bool {
    b.wf() && forall|x: u64| b.amount_of(x) == 0
}

/// What one finished run reports: `n` instructions committed their effects,
/// the outcome's used weight charges exactly those, the run is `Complete`
/// exactly when every instruction committed, and each asset's supply
/// (ledger total plus what is left in holding) grew by exactly the value
/// the committed reserve-deposits minted.
pub open spec fn run_summary(
    pre: Ledger,
    post: Ledger,
    left: AssetBag,
    msg: Seq<Instruction>,
    unit: u64,
    o: Outcome,
    n: int,
) -> bool {
    &&& 0 <= n <= msg.len()
    &&& forall|x: u64|
        post.total_of(x) + left.amount_of(x) == pre.total_of(x) + minted_upto(msg, n, x)
    &&& (o is Complete <==> n == msg.len())
    &&& match o {
        Outcome::Complete { used } => used == n * unit,
        Outcome::Incomplete { used, .. } => used == n * unit,
        Outcome::Error { .. } => false,
    }
}

impl EngineConfig {
    /// Rates name distinct assets and have positive denominators.
    pub open spec fn wf(self) -> bool {
        distinct_rates(self.rates@) && forall|i: int|
            0 <= i < self.rates@.len() ==> self.rates@[i].den >= 1
    }

    /// Whether `asset` may pay for execution under this configuration.
    pub open spec fn is_payable(self, asset: u64) -> bool {
        rate_for(self.rates@, asset) is Some
    }

    /// The fee charged for `w` units of weight paid in `asset` (0 when the
    /// asset is not fee-payable; callers check `is_payable` first).
    pub open spec fn fee_of(self, asset: u64, w: u64) -> int {
        match rate_for(self.rates@, asset) {
            Some(r) => w * r.num / (r.den as int),
            None => 0,
        }
    }

    /// The upper-bound execution weight of `msg`: its instruction count times
    /// the per-instruction unit weight, or the fallback bound 0 when that
    /// exceeds the weight type (a failed weighing is not fatal).
    pub open spec fn weight_bound(self, msg: Seq<Instruction>) -> int {
        if msg.len() * self.unit_weight <= u64::MAX {
            msg.len() * self.unit_weight
        } else {
            0
        }
    }

    /// The weight budget a message executes under: its weight bound capped
    /// by the hard ceiling.
    pub open spec fn budget_of(self, msg: Seq<Instruction>) -> int {
        if self.weight_bound(msg) < self.max_weight {
            self.weight_bound(msg)
        } else {
            self.max_weight as int
        }
    }

    /// The rate configured for `asset`, if any.
    fn find_rate(&self, asset: u64) -> (r: Option<FeeRate>)
        requires
            self.wf(),
        ensures
            r == rate_for(self.rates@, asset),
            match r {
                Some(fr) => fr.asset == asset && fr.den >= 1,
                None => true,
            },
    {
        let n = self.rates.len();
        let mut i: usize = 0;
        while i < n
            invariant
                n == self.rates@.len(),
                i <= n,
                self.wf(),
                forall|k: int| 0 <= k < i ==> self.rates@[k].asset != asset,
            decreases n - i,
        {
            let fr = self.rates[i];
            if fr.asset == asset {
                proof {
                    lemma_rate_for_at(self.rates@, i as int);
                }
                return Some(fr);
            }
            i = i + 1;
        }
        proof {
            lemma_rate_for_absent(self.rates@, asset);
        }
        None
    }

    /// Computes the message's weight bound. Weighing is deterministic: the
    /// result is a function of the message alone, so weighing the same
    /// message twice returns the same bound.
    pub fn weigh(&self, msg: &Vec<Instruction>) -> (w: u64)
        ensures
            w == self.weight_bound(msg@),
    {
        let unit = self.unit_weight;
        let n = msg.len();
        let mut w: u64 = 0;
        let mut i: usize = 0;
        while i < n
            invariant
                n == msg@.len(),
                i <= n,
                unit == self.unit_weight,
                w == i * unit,
            decreases n - i,
        {
            if unit > 0 && w > u64::MAX - unit {
                proof {
                    assert((i + 1) * unit == i * unit + unit) by (nonlinear_arith);
                    vstd::arithmetic::mul::lemma_mul_inequality(
                        i + 1 as int,
                        n as int,
                        unit as int,
                    );
                }
                return 0;
            }
            proof {
                assert((i + 1) * unit == i * unit + unit) by (nonlinear_arith);
            }
            w = w + unit;
            i = i + 1;
        }
        w
    }

    /// Interprets one instruction against the ledger and the holding
    /// register. Each instruction's effect is atomic: on an error, neither
    /// the ledger nor the holding register changed.
    #[verifier::loop_isolation(false)]
    pub fn execute_instruction(
        &self,
        ledger: &mut Ledger,
        holding: &mut AssetBag,
        bound: u64,
        instr: &Instruction,
    ) -> (r: Result<(), ExecError>)
        requires
            self.wf(),
            old(ledger).wf(),
            old(holding).wf(),
        ensures
            final(ledger).wf(),
            final(holding).wf(),
            same_config(*old(ledger), *final(ledger)),
            step_rel(
                *self,
                *old(ledger),
                *old(holding),
                bound,
                *instr,
                *final(ledger),
                *final(holding),
                r,
            ),
    {
        match *instr {
            Instruction::ReserveAssetDeposited { asset, amount } => {
                let cur = holding.get(asset);
                if amount > u128::MAX - cur {
                    Err(ExecError::Overflow)
                } else {
                    holding.set(asset, cur + amount);
                    Ok(())
                }
            },
            Instruction::BuyExecution { fee_asset, limit } => {
                match self.find_rate(fee_asset) {
                    None => Err(ExecError::AssetNotPayable),
                    Some(rate) => {
                        let limit_ok = match limit {
                            WeightLimit::Unlimited => true,
                            WeightLimit::Limited(l) => l >= bound,
                        };
                        if !limit_ok {
                            return Err(ExecError::WeightLimitReached);
                        }
                        let bw = bound as u128;
                        let nm = rate.num as u128;
                        let dn = rate.den as u128;
                        proof {
                            assert(bw * nm <= u128::MAX) by (nonlinear_arith)
                                requires
                                    bw <= u64::MAX,
                                    nm <= u64::MAX,
                            ;
                        }
                        let fee = bw * nm / dn;
                        let held = holding.get(fee_asset);
                        if held < fee {
                            return Err(ExecError::TooExpensive);
                        }
                        let t = ledger.total_issuance(fee_asset);
                        if fee > u128::MAX - t {
                            return Err(ExecError::Overflow);
                        }
                        holding.set(fee_asset, held - fee);
                        let sink = ledger.sink;
                        ledger.credit(sink, fee_asset, fee);
                        Ok(())
                    },
                }
            },
            Instruction::DepositAsset { beneficiary } => {
                let n = holding.entries.len();
                let mut j: usize = 0;
                while j < n
                    invariant
                        n == holding.entries@.len(),
                        j <= n,
                        *holding == *old(holding),
                        *ledger == *old(ledger),
                        old(ledger).wf(),
                        old(holding).wf(),
                        forall|k: int|
                            0 <= k < j ==> old(ledger).total_of(holding.entries@[k].asset)
                                + holding.entries@[k].amount <= u128::MAX,
                    decreases n - j,
                {
                    let e = holding.entries[j];
                    let t = ledger.total_issuance(e.asset);
                    if e.amount > u128::MAX - t {
                        proof {
                            lemma_amount_in_at(holding.entries@, j as int);
                            assert(old(ledger).total_of(e.asset) + old(holding).amount_of(e.asset)
                                > u128::MAX);
                        }
                        return Err(ExecError::Overflow);
                    }
                    j = j + 1;
                }
                proof {
                    assert forall|x: u64|
                        old(ledger).total_of(x) + old(holding).amount_of(x) <= u128::MAX by {
                        let s = old(holding).entries@;
                        if exists|k: int| 0 <= k < s.len() && s[k].asset == x {
                            let k = choose|k: int| 0 <= k < s.len() && s[k].asset == x;
                            lemma_amount_in_at(s, k);
                        } else {
                            lemma_amount_in_absent(s, x);
                            assert(old(ledger).totals.amount_of(x) as int == old(ledger).total_of(
                                x,
                            ));
                        }
                    }
                }
                let ghost s = holding.entries@;
                let mut j: usize = 0;
                while j < n
                    invariant
                        n == s.len(),
                        s == holding.entries@,
                        *holding == *old(holding),
                        old(holding).wf(),
                        self.wf(),
                        j <= n,
                        ledger.wf(),
                        same_config(*old(ledger), *ledger),
                        forall|k: int|
                            0 <= k < j ==> credit_effect(
                                *old(ledger),
                                *ledger,
                                beneficiary,
                                s[k].asset,
                                s[k].amount,
                            ),
                        forall|a: u64, x: u64|
                            !credited_prefix(s, j as int, x) ==> ledger.balance_of(a, x) == old(
                                ledger,
                            ).balance_of(a, x),
                        forall|x: u64|
                            !credited_prefix(s, j as int, x) ==> ledger.total_of(x) == old(
                                ledger,
                            ).total_of(x),
                        forall|k: int|
                            0 <= k < n ==> old(ledger).total_of(s[k].asset) + s[k].amount
                                <= u128::MAX,
                    decreases n - j,
                {
                    let e = holding.entries[j];
                    proof {
                        assert forall|k: int| 0 <= k < j implies s[k].asset != e.asset by {
                            assert(s[k].asset != s[j as int].asset);
                        }
                        assert(!credited_prefix(s, j as int, e.asset));
                    }
                    ledger.credit(beneficiary, e.asset, e.amount);
                    proof {
                        assert forall|k: int| 0 <= k < j + 1 implies credit_effect(
                            *old(ledger),
                            *ledger,
                            beneficiary,
                            s[k].asset,
                            s[k].amount,
                        ) by {
                            if k < j {
                                assert(s[k].asset != s[j as int].asset);
                            }
                        }
                        assert forall|x: u64| !credited_prefix(s, j as int + 1, x) implies
                            !credited_prefix(s, j as int, x) && x != e.asset by {
                            assert(s[j as int].asset == e.asset);
                        }
                    }
                    j = j + 1;
                }
                proof {
                    assert forall|x: u64|
                        credit_effect(
                            *old(ledger),
                            *ledger,
                            beneficiary,
                            x,
                            old(holding).amount_of(x),
                        ) by {
                        let sq = old(holding).entries@;
                        if exists|k: int| 0 <= k < sq.len() && sq[k].asset == x {
                            let k = choose|k: int| 0 <= k < sq.len() && sq[k].asset == x;
                            lemma_amount_in_at(sq, k);
                            assert(credited_prefix(sq, n as int, x));
                        } else {
                            lemma_amount_in_absent(sq, x);
                            assert(!credited_prefix(sq, n as int, x));
                            assert(old(ledger).balance_of(beneficiary, x) == 0 || old(
                                ledger,
                            ).balance_of(beneficiary, x) >= old(ledger).min_of(x) || old(
                                ledger,
                            ).is_exempt(beneficiary));
                        }
                    }
                }
                holding.entries.clear();
                Ok(())
            },
        }
    }

    /// Interprets a full message from `origin`: validates the origin, weighs
    /// the message, and executes it strictly in order under a weight budget
    /// equal to the bound capped by the hard ceiling. Returns the outcome
    /// together with whatever is left in the holding register.
    #[verifier::loop_isolation(false)]
    pub fn execute(&self, ledger: &mut Ledger, origin: u64, msg: &Vec<Instruction>) -> (r: (
        Outcome,
        AssetBag,
    ))
        requires
            self.wf(),
            old(ledger).wf(),
        ensures
            final(ledger).wf(),
            r.1.wf(),
            same_config(*old(ledger), *final(ledger)),
            (r.0 is Error) <==> origin != self.trusted_origin,
            origin != self.trusted_origin ==> *final(ledger) == *old(ledger) && (forall|x: u64|
                r.1.amount_of(x) == 0) && r.0 == (Outcome::Error {
                error: ExecError::UntrustedOrigin,
            }),
            origin == self.trusted_origin ==> exists|n: int, states: Seq<(Ledger, AssetBag)>|
                run_summary(
                    *old(ledger),
                    *final(ledger),
                    r.1,
                    msg@,
                    self.unit_weight,
                    r.0,
                    n,
                ) && is_run(*self, (self.weight_bound(msg@)) as u64, msg@.take(n), states)
                    && states[0].0 == *old(ledger) && all_empty(states[0].1) && states.last().0
                    == *final(ledger) && states.last().1 == r.1 && (match r.0 {
                    Outcome::Incomplete { error, .. } => {
                        if self.budget_of(msg@) - n * self.unit_weight < self.unit_weight {
                            error == ExecError::WeightLimitReached
                        } else {
                            step_rel(
                                *self,
                                *final(ledger),
                                r.1,
                                (self.weight_bound(msg@)) as u64,
                                msg@[n],
                                *final(ledger),
                                r.1,
                                Err::<(), ExecError>(error),
                            )
                        }
                    },
                    _ => true,
                }),
    {
        if origin != self.trusted_origin {
            return (Outcome::Error { error: ExecError::UntrustedOrigin }, AssetBag::new());
        }
        let bound = self.weigh(msg);
        let budget = if bound < self.max_weight {
            bound
        } else {
            self.max_weight
        };
        let mut holding = AssetBag::new();
        let ghost mut trace: Seq<(Ledger, AssetBag)> = seq![(*ledger, holding)];
        let mut used: u64 = 0;
        let mut remaining: u64 = budget;
        let n = msg.len();
        let mut i: usize = 0;
        while i < n
            invariant
                n == msg@.len(),
                i <= n,
                self.wf(),
                ledger.wf(),
                holding.wf(),
                origin == self.trusted_origin,
                same_config(*old(ledger), *ledger),
                used == i * self.unit_weight,
                used + remaining == budget,
                bound == self.weight_bound(msg@),
                budget == self.budget_of(msg@),
                trace.len() == i + 1,
                is_run(*self, bound, msg@.take(i as int), trace),
                trace[0].0 == *old(ledger),
                all_empty(trace[0].1),
                trace.last().0 == *ledger,
                trace.last().1 == holding,
                forall|x: u64|
                    ledger.total_of(x) + holding.amount_of(x) == old(ledger).total_of(x)
                        + minted_upto(msg@, i as int, x),
            decreases n - i,
        {
            if remaining < self.unit_weight {
                let o = Outcome::Incomplete { used, error: ExecError::WeightLimitReached };
                let res = (o, holding);
                proof {
                    assert(run_summary(
                        *old(ledger),
                        *ledger,
                        res.1,
                        msg@,
                        self.unit_weight,
                        res.0,
                        i as int,
                    ));
                    assert(is_run(*self, bound, msg@.take(i as int), trace));
                    assert(self.budget_of(msg@) - i as int * self.unit_weight < self.unit_weight);
                }
                return res;
            }
            let instr = msg[i];
            let ghost pre_l = *ledger;
            let ghost pre_h = holding;
            match self.execute_instruction(ledger, &mut holding, bound, &instr) {
                Ok(()) => {},
                Err(e) => {
                    let o = Outcome::Incomplete { used, error: e };
                    let res = (o, holding);
                    proof {
                        assert(run_summary(
                            *old(ledger),
                            *ledger,
                            res.1,
                            msg@,
                            self.unit_weight,
                            res.0,
                            i as int,
                        ));
                        assert(is_run(*self, bound, msg@.take(i as int), trace));
                        assert(self.budget_of(msg@) - i as int * self.unit_weight
                            >= self.unit_weight);
                        assert(step_rel(
                            *self,
                            *ledger,
                            res.1,
                            bound,
                            msg@[i as int],
                            *ledger,
                            res.1,
                            Err::<(), ExecError>(e),
                        ));
                    }
                    return res;
                },
            }
            proof {
                assert((i + 1) * self.unit_weight == i * self.unit_weight + self.unit_weight)
                    by (nonlinear_arith);
                assert(instr == msg@[i as int]);
                assert(step_rel(
                    *self,
                    pre_l,
                    pre_h,
                    bound,
                    msg@[i as int],
                    *ledger,
                    holding,
                    Ok::<(), ExecError>(()),
                ));
                trace = trace.push((*ledger, holding));
                assert forall|k: int|
                    #![trigger msg@.take(i as int + 1)[k]]
                    0 <= k < i as int + 1 implies step_rel(
                    *self,
                    trace[k].0,
                    trace[k].1,
                    bound,
                    msg@.take(i as int + 1)[k],
                    trace[k + 1].0,
                    trace[k + 1].1,
                    Ok::<(), ExecError>(()),
                ) by {
                    assert(msg@.take(i as int + 1)[k] == msg@[k]);
                    if k < i as int {
                        assert(msg@.take(i as int)[k] == msg@[k]);
                        assert(step_rel(
                            *self,
                            trace[k].0,
                            trace[k].1,
                            bound,
                            msg@.take(i as int)[k],
                            trace[k + 1].0,
                            trace[k + 1].1,
                            Ok::<(), ExecError>(()),
                        ));
                    } else {
                        assert(trace[k] == (pre_l, pre_h));
                        assert(trace[k + 1] == (*ledger, holding));
                    }
                }
                assert(is_run(*self, bound, msg@.take(i as int + 1), trace));
                assert forall|x: u64|
                    ledger.total_of(x) + holding.amount_of(x) == old(ledger).total_of(x)
                        + minted_upto(msg@, i as int + 1, x) by {
                    assert(minted_upto(msg@, i as int + 1, x) == minted_upto(msg@, i as int, x) + (
                    match msg@[i as int] {
                        Instruction::ReserveAssetDeposited { asset, amount } => if asset == x {
                            amount as int
                        } else {
                            0
                        },
                        _ => 0,
                    }));
                    match instr {
                        Instruction::ReserveAssetDeposited { .. } => {
                            assert(*ledger == pre_l);
                            assert(pre_l.total_of(x) + pre_h.amount_of(x) == old(ledger).total_of(
                                x,
                            ) + minted_upto(msg@, i as int, x));
                        },
                        Instruction::BuyExecution { fee_asset, .. } => {
                            lemma_rate_for_is_element(self.rates@, fee_asset);
                            match rate_for(self.rates@, fee_asset) {
                                Some(fr) => {
                                    let k = choose|k: int|
                                        0 <= k < self.rates@.len() && self.rates@[k] == fr;
                                    assert(fr.den >= 1);
                                    vstd::arithmetic::div_mod::lemma_div_pos_is_pos(
                                        bound * fr.num,
                                        fr.den as int,
                                    );
                                    assert(self.fee_of(fee_asset, bound) >= 0);
                                },
                                None => {},
                            }
                            assert(credit_rel(
                                pre_l,
                                *ledger,
                                pre_l.sink_account(),
                                fee_asset,
                                (self.fee_of(fee_asset, bound)) as u128,
                            ));
                            assert(pre_l.total_of(x) + pre_h.amount_of(x) == old(ledger).total_of(
                                x,
                            ) + minted_upto(msg@, i as int, x));
                        },
                        Instruction::DepositAsset { beneficiary } => {
                            assert(credit_effect(
                                pre_l,
                                *ledger,
                                beneficiary,
                                x,
                                pre_h.amount_of(x),
                            ));
                            assert(holding.amount_of(x) == 0);
                            assert(pre_l.total_of(x) + pre_h.amount_of(x) == old(ledger).total_of(
                                x,
                            ) + minted_upto(msg@, i as int, x));
                        },
                    }
                }
            }
            used = used + self.unit_weight;
            remaining = remaining - self.unit_weight;
            i = i + 1;
        }
        let o = Outcome::Complete { used };
        let res = (o, holding);
        proof {
            assert(run_summary(
                *old(ledger),
                *ledger,
                res.1,
                msg@,
                self.unit_weight,
                res.0,
                n as int,
            ));
            assert(is_run(*self, bound, msg@.take(n as int), trace));
        }
        res
    }
}

/// Whether one of the first `j` entries of `s` names asset `x`.
spec fn credited_prefix(s: Seq<AssetAmount>, j: int, x: u64) -> bool {
    exists|k: int| 0 <= k < j && s[k].asset == x
}

} // verus!

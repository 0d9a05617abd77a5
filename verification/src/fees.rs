//! Fee distribution: collected fee revenue arrives as an ephemeral move-only
//! credit withdrawn from circulation; a configured fraction of it is resolved
//! into the reward pool and the remainder is explicitly burned. Each block's
//! author-noted event then pays half of the pool's distributable balance to
//! the author once it reaches a configured threshold.

use vstd::arithmetic::div_mod::lemma_div_is_ordered;
use vstd::arithmetic::div_mod::lemma_div_multiples_vanish;
use vstd::arithmetic::mul::lemma_mul_inequality;
use vstd::prelude::*;

use crate::ledger::Ledger;
use crate::ledger::credit_rel;
use crate::ledger::debit_rel;
use crate::ledger::same_config;

verus! {

/// An amount of one asset withdrawn from circulation and pending resolution.
/// The value cannot be duplicated; its only consuming operations deposit it
/// into an account through the ledger or burn it explicitly.
pub struct FeeCredit {
    asset_id: u64,
    value: u128,
}

impl FeeCredit {
    /// The asset the pending revenue is denominated in.
    pub closed spec fn asset(self) -> u64 {
        self.asset_id
    }

    /// The pending amount.
    pub closed spec fn amount(self) -> u128 {
        self.value
    }

    /// Wraps revenue withdrawn from circulation as a pending credit.
    pub fn new(asset: u64, amount: u128) -> (c: FeeCredit)
        ensures
            c.asset() == asset,
            c.amount() == amount,
    {
        FeeCredit { asset_id: asset, value: amount }
    }

    /// Merges two pending credits of the same asset into one.
    pub fn merge(self, other: FeeCredit) -> (c: FeeCredit)
        requires
            self.asset() == other.asset(),
            self.amount() + other.amount() <= u128::MAX,
        ensures
            c.asset() == self.asset(),
            c.amount() == self.amount() + other.amount(),
    {
        FeeCredit { asset_id: self.asset_id, value: self.value + other.value }
    }

    /// Resolves the credit by depositing it into `who` through the ledger
    /// (subject to the ledger's dust-sweep policy).
    pub fn resolve_into(self, ledger: &mut Ledger, who: u64)
        requires
            old(ledger).wf(),
            old(ledger).total_of(self.asset()) + self.amount() <= u128::MAX,
        ensures
            final(ledger).wf(),
            credit_rel(*old(ledger), *final(ledger), who, self.asset(), self.amount()),
    {
        ledger.credit(who, self.asset_id, self.value);
    }

    /// Resolves the credit by burning it: the amount leaves supply for good.
    /// Returns the burned amount.
    pub fn burn(self) -> (r: u128)
        ensures
            r == self.amount(),
    {
        self.value
    }
}

/// The pool's distributable balance in `asset`: its free balance above the
/// asset's minimum, which the pool always retains as a base reserve.
pub open spec fn pool_distributable(l: Ledger, asset: u64) -> int {
    if l.balance_of(l.pool_account(), asset) >= l.min_of(asset) {
        l.balance_of(l.pool_account(), asset) - l.min_of(asset)
    } else {
        0
    }
}

/// Fee distribution policy: the fraction of collected revenue routed into the
/// reward pool, and the payout threshold on the pool's distributable balance.
pub struct FeeDistributor {
    pub pool_share_num: u128,
    pub pool_share_den: u128,
    pub payout_threshold: u128,
}

impl FeeDistributor {
    /// The pool's share is a genuine fraction: numerator at most denominator.
    pub open spec fn wf(self) -> bool {
        1 <= self.pool_share_den && self.pool_share_num <= self.pool_share_den
    }

    /// The pool's part of a revenue amount, rounded down.
    pub open spec fn pool_share_of(self, amount: u128) -> int {
        amount * self.pool_share_num / (self.pool_share_den as int)
    }

    /// Splits one block's collected fee revenue: the configured fraction is
    /// credited to the reward pool through the ledger and the remainder is
    /// burned. Returns the burned remainder.
    pub fn distribute(&self, ledger: &mut Ledger, credit: FeeCredit) -> (burned: u128)
        requires
            self.wf(),
            old(ledger).wf(),
            credit.amount() * self.pool_share_num <= u128::MAX,
            old(ledger).total_of(credit.asset()) + credit.amount() <= u128::MAX,
        ensures
            final(ledger).wf(),
            burned == credit.amount() - self.pool_share_of(credit.amount()),
            credit_rel(
                *old(ledger),
                *final(ledger),
                old(ledger).pool_account(),
                credit.asset(),
                (self.pool_share_of(credit.amount())) as u128,
            ),
    {
        let amount = credit.value;
        let asset = credit.asset_id;
        let part = amount * self.pool_share_num / self.pool_share_den;
        proof {
            lemma_mul_inequality(
                self.pool_share_num as int,
                self.pool_share_den as int,
                amount as int,
            );
            lemma_div_is_ordered(
                amount * self.pool_share_num,
                amount * self.pool_share_den,
                self.pool_share_den as int,
            );
            lemma_div_multiples_vanish(amount as int, self.pool_share_den as int);
            assert(part <= amount);
        }
        let pool = ledger.pool;
        ledger.credit(pool, asset, part);
        amount - part
    }

    /// Handles one author-noted event. Let P be the pool's distributable
    /// balance in `asset`: when P is below the payout threshold nothing
    /// happens; otherwise floor(P/2) is transferred from the pool to the
    /// author and the pool keeps the rest. Returns the amount paid.
    pub fn note_author(&self, ledger: &mut Ledger, asset: u64, author: u64) -> (paid: u128)
        requires
            self.wf(),
            old(ledger).wf(),
        ensures
            final(ledger).wf(),
            same_config(*old(ledger), *final(ledger)),
            ({
                let p = pool_distributable(*old(ledger), asset);
                if p < self.payout_threshold {
                    paid == 0 && *final(ledger) == *old(ledger)
                } else {
                    paid == p / 2 && (exists|mid: Ledger|
                        debit_rel(*old(ledger), mid, old(ledger).pool_account(), asset, paid)
                            && credit_rel(mid, *final(ledger), author, asset, paid)) && (forall|
                        x: u64,
                    |
                        final(ledger).total_of(x) == old(ledger).total_of(x)) && (author != old(
                        ledger,
                    ).pool_account() ==> final(ledger).balance_of(old(ledger).pool_account(), asset)
                        == old(ledger).balance_of(old(ledger).pool_account(), asset) - p / 2) && (
                    author != old(ledger).pool_account() && author != old(ledger).sink_account()
                        && old(ledger).balance_of(author, asset) + p / 2 >= old(ledger).min_of(
                        asset,
                    ) ==> final(ledger).balance_of(author, asset) == old(ledger).balance_of(
                        author,
                        asset,
                    ) + p / 2)
                }
            }),
    {
        let pool = ledger.pool;
        let bal = ledger.free_balance(pool, asset);
        let min = ledger.minimums.get(asset);
        let p = if bal >= min {
            bal - min
        } else {
            0
        };
        if p < self.payout_threshold {
            return 0;
        }
        let half = p / 2;
        let r = ledger.transfer(pool, author, asset, half);
        proof {
            assert(r == Ok::<(), crate::ledger::LedgerError>(()));
            let mid = choose|mid: Ledger|
                debit_rel(*old(ledger), mid, pool, asset, half) && credit_rel(
                    mid,
                    *ledger,
                    author,
                    asset,
                    half,
                );
            assert(old(ledger).is_exempt(pool));
            assert(mid.balance_of(pool, asset) == bal - half);
            if author != pool {
                assert(ledger.balance_of(pool, asset) == bal - half);
                if author != old(ledger).sink_account() && old(ledger).balance_of(author, asset)
                    + half >= old(ledger).min_of(asset) {
                    assert(mid.balance_of(author, asset) == old(ledger).balance_of(author, asset));
                    assert(ledger.balance_of(author, asset) == old(ledger).balance_of(
                        author,
                        asset,
                    ) + half);
                }
            }
        }
        half
    }
}

} // verus!

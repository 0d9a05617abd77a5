//! The ledger store: per-(account, asset) free balances under a
//! minimum-balance policy. Whenever an operation would leave a non-exempt
//! account with a balance strictly between zero and the asset's minimum, the
//! account is reaped and the remainder ("dust") is forwarded to a
//! distinguished sink account, so value is never silently destroyed. The sink
//! and the reward-pool account are exempt from reaping.

use vstd::prelude::*;

use crate::assets::AssetBag;

verus! {

/// Errors surfaced by balance-reducing ledger operations.
#[derive(Clone, Copy, Debug, PartialEq, Eq, Structural)]
pub enum LedgerError {
    /// The debited amount exceeds the account's free balance.
    InsufficientBalance,
}

/// One account's free balance in one asset.
#[derive(Clone, Copy)]
pub struct BalanceEntry {
    pub account: u64,
    pub asset: u64,
    pub amount: u128,
}

/// The balance recorded for `(account, asset)` in `s`: the first matching
/// entry's amount, or 0 when no entry matches.
pub open spec fn balance_in(s: Seq<BalanceEntry>, account: u64, asset: u64) -> u128
    decreases s.len(),
{
    if s.len() == 0 {
        0
    } else if s[0].account == account && s[0].asset == asset {
        s[0].amount
    } else {
        balance_in(s.drop_first(), account, asset)
    }
}

/// The sum of every account's balance in `asset` over the entries of `s`.
pub open spec fn total_in(s: Seq<BalanceEntry>, asset: u64) -> int
    decreases s.len(),
{
    if s.len() == 0 {
        0
    } else {
        (if s[0].asset == asset {
            s[0].amount as int
        } else {
            0
        }) + total_in(s.drop_first(), asset)
    }
}

/// No two entries share the same (account, asset) key.
pub open spec fn distinct_keys(s: Seq<BalanceEntry>) -> bool {
    forall|i: int, j: int|
        0 <= i < j < s.len() ==> !(s[i].account == s[j].account && s[i].asset == s[j].asset)
}

pub proof fn lemma_keys_drop_first(s: Seq<BalanceEntry>)
    requires
        distinct_keys(s),
        s.len() > 0,
    ensures
        distinct_keys(s.drop_first()),
{
    assert forall|i: int, j: int| 0 <= i < j < s.drop_first().len() implies !(s.drop_first()[i].account
        == s.drop_first()[j].account && s.drop_first()[i].asset == s.drop_first()[j].asset) by {
        assert(!(s[i + 1].account == s[j + 1].account && s[i + 1].asset == s[j + 1].asset));
    }
}

pub proof fn lemma_balance_in_absent(s: Seq<BalanceEntry>, account: u64, asset: u64)
    requires
        forall|k: int| 0 <= k < s.len() ==> !(s[k].account == account && s[k].asset == asset),
    ensures
        balance_in(s, account, asset) == 0,
    decreases s.len(),
{
    if s.len() > 0 {
        lemma_balance_in_absent(s.drop_first(), account, asset);
    }
}

pub proof fn lemma_balance_in_at(s: Seq<BalanceEntry>, i: int)
    requires
        distinct_keys(s),
        0 <= i < s.len(),
    ensures
        balance_in(s, s[i].account, s[i].asset) == s[i].amount,
    decreases i,
{
    if i > 0 {
        lemma_keys_drop_first(s);
        lemma_balance_in_at(s.drop_first(), i - 1);
    }
}

pub proof fn lemma_balance_in_update(s: Seq<BalanceEntry>, i: int, e: BalanceEntry, a: u64, x: u64)
    requires
        distinct_keys(s),
        0 <= i < s.len(),
        e.account == s[i].account,
        e.asset == s[i].asset,
    ensures
        balance_in(s.update(i, e), a, x) == if a == e.account && x == e.asset {
            e.amount
        } else {
            balance_in(s, a, x)
        },
    decreases i,
{
    reveal_with_fuel(balance_in, 3);
    if i == 0 {
        assert(s.update(0, e).drop_first() =~= s.drop_first());
    } else {
        lemma_keys_drop_first(s);
        assert(s.update(i, e).drop_first() =~= s.drop_first().update(i - 1, e));
        lemma_balance_in_update(s.drop_first(), i - 1, e, a, x);
    }
}

pub proof fn lemma_balance_in_push(s: Seq<BalanceEntry>, e: BalanceEntry, a: u64, x: u64)
    requires
        forall|k: int| 0 <= k < s.len() ==> !(s[k].account == e.account && s[k].asset == e.asset),
    ensures
        balance_in(s.push(e), a, x) == if a == e.account && x == e.asset {
            e.amount
        } else {
            balance_in(s, a, x)
        },
    decreases s.len(),
{
    reveal_with_fuel(balance_in, 3);
    if s.len() == 0 {
        assert(s.push(e)[0] == e);
        assert(s.push(e).drop_first() =~= Seq::<BalanceEntry>::empty());
    } else {
        assert(s.push(e)[0] == s[0]);
        assert(s.push(e).drop_first() =~= s.drop_first().push(e));
        assert forall|k: int| 0 <= k < s.drop_first().len() implies !(s.drop_first()[k].account
            == e.account && s.drop_first()[k].asset == e.asset) by {
            assert(!(s[k + 1].account == e.account && s[k + 1].asset == e.asset));
        }
        lemma_balance_in_push(s.drop_first(), e, a, x);
    }
}

pub proof fn lemma_total_in_update(s: Seq<BalanceEntry>, i: int, e: BalanceEntry, x: u64)
    requires
        0 <= i < s.len(),
    ensures
        total_in(s.update(i, e), x) == total_in(s, x) - (if s[i].asset == x {
            s[i].amount as int
        } else {
            0
        }) + (if e.asset == x {
            e.amount as int
        } else {
            0
        }),
    decreases i,
{
    reveal_with_fuel(total_in, 3);
    if i == 0 {
        assert(s.update(0, e).drop_first() =~= s.drop_first());
    } else {
        assert(s.update(i, e).drop_first() =~= s.drop_first().update(i - 1, e));
        lemma_total_in_update(s.drop_first(), i - 1, e, x);
    }
}

pub proof fn lemma_total_in_push(s: Seq<BalanceEntry>, e: BalanceEntry, x: u64)
    ensures
        total_in(s.push(e), x) == total_in(s, x) + (if e.asset == x {
            e.amount as int
        } else {
            0
        }),
    decreases s.len(),
{
    reveal_with_fuel(total_in, 3);
    if s.len() == 0 {
        assert(s.push(e)[0] == e);
        assert(s.push(e).drop_first() =~= Seq::<BalanceEntry>::empty());
    } else {
        assert(s.push(e)[0] == s[0]);
        assert(s.push(e).drop_first() =~= s.drop_first().push(e));
        lemma_total_in_push(s.drop_first(), e, x);
    }
}

pub proof fn lemma_balance_le_total(s: Seq<BalanceEntry>, account: u64, asset: u64)
    ensures
        0 <= total_in(s, asset),
        balance_in(s, account, asset) <= total_in(s, asset),
    decreases s.len(),
{
    if s.len() > 0 {
        lemma_balance_le_total(s.drop_first(), account, asset);
    }
}

/// The ledger: per-(account, asset) free balances, the per-asset minimum
/// balance table, the two exempt accounts, and a per-asset running total.
pub struct Ledger {
    pub sink: u64,
    pub pool: u64,
    pub minimums: AssetBag,
    pub entries: Vec<BalanceEntry>,
    pub totals: AssetBag,
}

impl Ledger {
    /// The distinguished account that absorbs dust and settled execution fees.
    pub open spec fn sink_account(self) -> u64 {
        self.sink
    }

    /// The distinguished account that accumulates fee revenue for payouts.
    pub open spec fn pool_account(self) -> u64 {
        self.pool
    }

    /// Exempt accounts are never reaped, however low their balance falls.
    pub open spec fn is_exempt(self, account: u64) -> bool {
        account == self.sink || account == self.pool
    }

    /// The asset's minimum balance (existential deposit); 0 when unconfigured.
    pub open spec fn min_of(self, asset: u64) -> u128 {
        self.minimums.amount_of(asset)
    }

    /// The free balance of `account` in `asset`.
    pub open spec fn balance_of(self, account: u64, asset: u64) -> u128 {
        balance_in(self.entries@, account, asset)
    }

    /// The total of every account's balance in `asset`.
    pub open spec fn total_of(self, asset: u64) -> int {
        total_in(self.entries@, asset)
    }

    pub open spec fn keys_ok(self) -> bool {
        distinct_keys(self.entries@)
    }

    pub open spec fn totals_ok(self) -> bool {
        self.totals.wf() && forall|x: u64|
            self.totals.amount_of(x) as int == total_in(self.entries@, x)
    }

    /// Every non-exempt account holds either nothing or at least the minimum.
    pub open spec fn dust_free(self) -> bool {
        forall|a: u64, x: u64| #![trigger self.balance_of(a, x)]
            !self.is_exempt(a) ==> self.balance_of(a, x) == 0 || self.balance_of(a, x)
                >= self.min_of(x)
    }

    pub open spec fn wf(self) -> bool {
        self.keys_ok() && self.totals_ok() && self.minimums.wf() && self.sink != self.pool
            && self.dust_free()
    }

    /// An empty ledger over the given minimum-balance table, with the two
    /// distinguished exempt accounts fixed for its lifetime.
    pub fn new(sink: u64, pool: u64, minimums: AssetBag) -> (l: Ledger)
        requires
            minimums.wf(),
            sink != pool,
        ensures
            l.wf(),
            l.sink_account() == sink,
            l.pool_account() == pool,
            forall|x: u64| l.min_of(x) == minimums.amount_of(x),
            forall|a: u64, x: u64| l.balance_of(a, x) == 0,
            forall|x: u64| l.total_of(x) == 0,
    {
        let l = Ledger { sink, pool, minimums, entries: Vec::new(), totals: AssetBag::new() };
        proof {
            assert forall|a: u64, x: u64| l.balance_of(a, x) == 0 by {
                lemma_balance_in_absent(l.entries@, a, x);
            }
        }
        l
    }

    /// The index of the entry for `(account, asset)`, when one exists.
    fn find_index(&self, account: u64, asset: u64) -> (r: Option<usize>)
        requires
            self.keys_ok(),
        ensures
            match r {
                Some(i) => i < self.entries@.len() && self.entries@[i as int].account == account
                    && self.entries@[i as int].asset == asset
                    && self.balance_of(account, asset) == self.entries@[i as int].amount,
                None => self.balance_of(account, asset) == 0 && forall|k: int|
                    0 <= k < self.entries@.len() ==> !(self.entries@[k].account == account
                        && self.entries@[k].asset == asset),
            },
    {
        let n = self.entries.len();
        let mut i: usize = 0;
        while i < n
            invariant
                n == self.entries@.len(),
                i <= n,
                self.keys_ok(),
                forall|k: int|
                    0 <= k < i ==> !(self.entries@[k].account == account && self.entries@[k].asset
                        == asset),
            decreases n - i,
        {
            let e = &self.entries[i];
            if e.account == account && e.asset == asset {
                proof {
                    lemma_balance_in_at(self.entries@, i as int);
                }
                return Some(i);
            }
            i = i + 1;
        }
        proof {
            lemma_balance_in_absent(self.entries@, account, asset);
        }
        None
    }

    /// Pure read of an account's free balance.
    pub fn free_balance(&self, account: u64, asset: u64) -> (r: u128)
        requires
            self.keys_ok(),
        ensures
            r == self.balance_of(account, asset),
    {
        match self.find_index(account, asset) {
            Some(i) => self.entries[i].amount,
            None => 0,
        }
    }

    /// The total supply of `asset` held in ledger accounts.
    pub fn total_issuance(&self, asset: u64) -> (r: u128)
        requires
            self.totals_ok(),
        ensures
            r as int == self.total_of(asset),
    {
        self.totals.get(asset)
    }

    /// Writes one (account, asset) cell and keeps the running totals in step.
    fn set_balance(&mut self, account: u64, asset: u64, v: u128)
        requires
            old(self).keys_ok(),
            old(self).totals_ok(),
            old(self).total_of(asset) - old(self).balance_of(account, asset) + v <= u128::MAX,
        ensures
            final(self).keys_ok(),
            final(self).totals_ok(),
            final(self).minimums == old(self).minimums,
            final(self).sink_account() == old(self).sink_account(),
            final(self).pool_account() == old(self).pool_account(),
            forall|x: u64| final(self).min_of(x) == old(self).min_of(x),
            final(self).balance_of(account, asset) == v,
            forall|a: u64, x: u64|
                !(a == account && x == asset) ==> final(self).balance_of(a, x) == old(
                    self,
                ).balance_of(a, x),
            final(self).total_of(asset) == old(self).total_of(asset) - old(self).balance_of(
                account,
                asset,
            ) + v,
            forall|x: u64| x != asset ==> final(self).total_of(x) == old(self).total_of(x),
    {
        let idx = self.find_index(account, asset);
        let b = match idx {
            Some(i) => self.entries[i].amount,
            None => 0,
        };
        proof {
            lemma_balance_le_total(self.entries@, account, asset);
            assert(self.totals.amount_of(asset) as int == total_in(self.entries@, asset));
        }
        let t = self.totals.get(asset);
        let nt = t - b + v;
        self.totals.set(asset, nt);
        let e = BalanceEntry { account, asset, amount: v };
        match idx {
            Some(i) => {
                proof {
                    let s = self.entries@;
                    assert forall|a: u64, x: u64|
                        balance_in(s.update(i as int, e), a, x) == if a == account && x == asset {
                            v
                        } else {
                            balance_in(s, a, x)
                        } by {
                        lemma_balance_in_update(s, i as int, e, a, x);
                    }
                    assert forall|x: u64|
                        total_in(s.update(i as int, e), x) == total_in(s, x) - (if x == asset {
                            b as int
                        } else {
                            0
                        }) + (if x == asset {
                            v as int
                        } else {
                            0
                        }) by {
                        lemma_total_in_update(s, i as int, e, x);
                    }
                    assert forall|p: int, q: int|
                        0 <= p < q < s.update(i as int, e).len() implies !(s.update(i as int, e)[p].account
                        == s.update(i as int, e)[q].account && s.update(i as int, e)[p].asset
                        == s.update(i as int, e)[q].asset) by {
                        assert(!(s[p].account == s[q].account && s[p].asset == s[q].asset));
                    }
                }
                self.entries.set(i, e);
            },
            None => {
                proof {
                    let s = self.entries@;
                    assert forall|a: u64, x: u64|
                        balance_in(s.push(e), a, x) == if a == account && x == asset {
                            v
                        } else {
                            balance_in(s, a, x)
                        } by {
                        lemma_balance_in_push(s, e, a, x);
                    }
                    assert forall|x: u64|
                        total_in(s.push(e), x) == total_in(s, x) + (if x == asset {
                            v as int
                        } else {
                            0
                        }) by {
                        lemma_total_in_push(s, e, x);
                    }
                    assert forall|p: int, q: int|
                        0 <= p < q < s.push(e).len() implies !(s.push(e)[p].account
                        == s.push(e)[q].account && s.push(e)[p].asset == s.push(e)[q].asset) by {
                        if q < s.len() {
                            assert(!(s[p].account == s[q].account && s[p].asset == s[q].asset));
                        }
                    }
                }
                self.entries.push(e);
            },
        }
    }

    /// Increases `who`'s free balance by `amount`; always succeeds. If the
    /// resulting balance of a non-exempt account lies strictly between zero
    /// and the asset's minimum, the account is reaped and the remainder is
    /// forwarded to the sink account.
    pub fn credit(&mut self, who: u64, asset: u64, amount: u128)
        requires
            old(self).wf(),
            old(self).total_of(asset) + amount <= u128::MAX,
        ensures
            final(self).wf(),
            credit_rel(*old(self), *final(self), who, asset, amount),
    {
        proof {
            lemma_balance_le_total(self.entries@, who, asset);
        }
        let b = self.free_balance(who, asset);
        let nb = b + amount;
        if who == self.sink || who == self.pool {
            self.set_balance(who, asset, nb);
        } else {
            let min = self.minimums.get(asset);
            if nb == 0 || nb >= min {
                self.set_balance(who, asset, nb);
            } else {
                let sink = self.sink;
                self.set_balance(who, asset, 0);
                proof {
                    lemma_balance_le_total(self.entries@, sink, asset);
                }
                let sb = self.free_balance(sink, asset);
                self.set_balance(sink, asset, sb + nb);
            }
        }
    }

    /// Decreases `who`'s free balance by `amount`, failing without effect when
    /// the balance is insufficient; on success the dust-sweep policy applies
    /// to the remaining balance.
    pub fn debit(&mut self, who: u64, asset: u64, amount: u128) -> (r: Result<(), LedgerError>)
        requires
            old(self).wf(),
        ensures
            final(self).wf(),
            amount <= old(self).balance_of(who, asset) ==> r == Ok::<(), LedgerError>(())
                && debit_rel(*old(self), *final(self), who, asset, amount),
            amount > old(self).balance_of(who, asset) ==> r == Err::<(), LedgerError>(
                LedgerError::InsufficientBalance,
            ) && *final(self) == *old(self),
    {
        let b = self.free_balance(who, asset);
        if amount > b {
            return Err(LedgerError::InsufficientBalance);
        }
        proof {
            lemma_balance_le_total(self.entries@, who, asset);
            assert(self.totals.amount_of(asset) as int == total_in(self.entries@, asset));
        }
        let nb = b - amount;
        if who == self.sink || who == self.pool {
            self.set_balance(who, asset, nb);
        } else {
            let min = self.minimums.get(asset);
            if nb == 0 || nb >= min {
                self.set_balance(who, asset, nb);
            } else {
                let sink = self.sink;
                self.set_balance(who, asset, 0);
                proof {
                    lemma_balance_le_total(self.entries@, sink, asset);
                }
                let sb = self.free_balance(sink, asset);
                self.set_balance(sink, asset, sb + nb);
            }
        }
        Ok(())
    }

    /// Moves `amount` of `asset` from `from` to `to`: a debit of `from`
    /// followed by a credit of `to`, with no effect at all when the debit
    /// fails. The asset's total supply is unchanged by a successful transfer.
    pub fn transfer(&mut self, from: u64, to: u64, asset: u64, amount: u128) -> (r: Result<
        (),
        LedgerError,
    >)
        requires
            old(self).wf(),
        ensures
            final(self).wf(),
            amount <= old(self).balance_of(from, asset) ==> r == Ok::<(), LedgerError>(()) && (exists|
                mid: Ledger,
            |
                debit_rel(*old(self), mid, from, asset, amount) && credit_rel(
                    mid,
                    *final(self),
                    to,
                    asset,
                    amount,
                )) && final(self).total_of(asset) == old(self).total_of(asset) && (forall|x: u64|
                x != asset ==> final(self).total_of(x) == old(self).total_of(x)) && same_config(
                *old(self),
                *final(self),
            ),
            amount > old(self).balance_of(from, asset) ==> r == Err::<(), LedgerError>(
                LedgerError::InsufficientBalance,
            ) && *final(self) == *old(self),
    {
        proof {
            assert(self.totals.amount_of(asset) as int == total_in(self.entries@, asset));
        }
        match self.debit(from, asset, amount) {
            Err(e) => Err(e),
            Ok(()) => {
                let ghost mid = *self;
                self.credit(to, asset, amount);
                proof {
                    assert(debit_rel(*old(self), mid, from, asset, amount));
                    assert(credit_rel(mid, *self, to, asset, amount));
                }
                Ok(())
            },
        }
    }
}

/// The configuration both states share: the two exempt accounts and the
/// per-asset minimum balances.
pub open spec fn same_config(pre: Ledger, post: Ledger) -> bool {
    &&& post.sink_account() == pre.sink_account()
    &&& post.pool_account() == pre.pool_account()
    &&& forall|x: u64| post.min_of(x) == pre.min_of(x)
}

/// How one credit relates post-state to pre-state on the credited asset's
/// column: the credited account's new balance, the dust sweep to the sink when
/// the result would fall strictly below the minimum, and the asset's total.
pub open spec fn credit_effect(pre: Ledger, post: Ledger, who: u64, asset: u64, amount: u128) -> bool {
    let nb = pre.balance_of(who, asset) + amount;
    &&& post.total_of(asset) == pre.total_of(asset) + amount
    &&& if pre.is_exempt(who) || nb == 0 || nb >= pre.min_of(asset) {
        &&& post.balance_of(who, asset) == nb
        &&& forall|a: u64| a != who ==> post.balance_of(a, asset) == pre.balance_of(a, asset)
    } else {
        &&& post.balance_of(who, asset) == 0
        &&& post.balance_of(pre.sink_account(), asset) == pre.balance_of(pre.sink_account(), asset)
            + nb
        &&& forall|a: u64|
            a != who && a != pre.sink_account() ==> post.balance_of(a, asset) == pre.balance_of(
                a,
                asset,
            )
    }
}

/// How one successful debit relates post-state to pre-state on the debited
/// asset's column.
pub open spec fn debit_effect(pre: Ledger, post: Ledger, who: u64, asset: u64, amount: u128) -> bool {
    let nb = pre.balance_of(who, asset) - amount;
    &&& post.total_of(asset) == pre.total_of(asset) - amount
    &&& if pre.is_exempt(who) || nb == 0 || nb >= pre.min_of(asset) {
        &&& post.balance_of(who, asset) == nb
        &&& forall|a: u64| a != who ==> post.balance_of(a, asset) == pre.balance_of(a, asset)
    } else {
        &&& post.balance_of(who, asset) == 0
        &&& post.balance_of(pre.sink_account(), asset) == pre.balance_of(pre.sink_account(), asset)
            + nb
        &&& forall|a: u64|
            a != who && a != pre.sink_account() ==> post.balance_of(a, asset) == pre.balance_of(
                a,
                asset,
            )
    }
}

/// Balances and totals of every other asset are untouched.
pub open spec fn frames_other_assets(pre: Ledger, post: Ledger, asset: u64) -> bool {
    &&& forall|a: u64, x: u64| x != asset ==> post.balance_of(a, x) == pre.balance_of(a, x)
    &&& forall|x: u64| x != asset ==> post.total_of(x) == pre.total_of(x)
}

/// The full contract of one `credit` call.
pub open spec fn credit_rel(pre: Ledger, post: Ledger, who: u64, asset: u64, amount: u128) -> bool {
    &&& same_config(pre, post)
    &&& credit_effect(pre, post, who, asset, amount)
    &&& frames_other_assets(pre, post, asset)
}

/// The full contract of one successful `debit` call.
pub open spec fn debit_rel(pre: Ledger, post: Ledger, who: u64, asset: u64, amount: u128) -> bool {
    &&& same_config(pre, post)
    &&& debit_effect(pre, post, who, asset, amount)
    &&& frames_other_assets(pre, post, asset)
}

/// Dust sweep on credit: a credit that would leave a non-exempt account
/// strictly between zero and the asset's minimum reaps the account to zero and
/// increases the sink's balance by exactly the swept amount.
pub proof fn lemma_credit_sweeps_dust(pre: Ledger, post: Ledger, who: u64, asset: u64, amount: u128)
    requires
        credit_rel(pre, post, who, asset, amount),
        !pre.is_exempt(who),
        0 < pre.balance_of(who, asset) + amount < pre.min_of(asset),
    ensures
        post.balance_of(who, asset) == 0,
        post.balance_of(pre.sink_account(), asset) == pre.balance_of(pre.sink_account(), asset)
            + pre.balance_of(who, asset) + amount,
        post.total_of(asset) == pre.total_of(asset) + amount,
{
}

/// Dust sweep on debit: a successful debit that would leave a non-exempt
/// account strictly between zero and the asset's minimum reaps the account to
/// zero and increases the sink's balance by exactly the swept amount.
pub proof fn lemma_debit_sweeps_dust(pre: Ledger, post: Ledger, who: u64, asset: u64, amount: u128)
    requires
        debit_rel(pre, post, who, asset, amount),
        !pre.is_exempt(who),
        amount <= pre.balance_of(who, asset),
        0 < pre.balance_of(who, asset) - amount < pre.min_of(asset),
    ensures
        post.balance_of(who, asset) == 0,
        post.balance_of(pre.sink_account(), asset) == pre.balance_of(pre.sink_account(), asset)
            + pre.balance_of(who, asset) - amount,
        post.total_of(asset) == pre.total_of(asset) - amount,
{
}

/// Sink exemption: a debit leaves the sink with the exact arithmetic result,
/// however far below the minimum, so the sink is a valid transfer source even
/// at balance 1 and is never reaped.
pub proof fn lemma_sink_never_reaped(pre: Ledger, post: Ledger, asset: u64, amount: u128)
    requires
        debit_rel(pre, post, pre.sink_account(), asset, amount),
        amount <= pre.balance_of(pre.sink_account(), asset),
    ensures
        post.balance_of(pre.sink_account(), asset) == pre.balance_of(pre.sink_account(), asset)
            - amount,
{
}

/// Sink exemption on credit: a credit leaves the sink with the exact
/// arithmetic result even when it stays below the minimum.
pub proof fn lemma_sink_keeps_dust(pre: Ledger, post: Ledger, asset: u64, amount: u128)
    requires
        credit_rel(pre, post, pre.sink_account(), asset, amount),
    ensures
        post.balance_of(pre.sink_account(), asset) == pre.balance_of(pre.sink_account(), asset)
            + amount,
{
}

/// Conservation: a debit-then-credit composition (a transfer, dust sweeps
/// included) leaves every asset's total supply unchanged.
pub proof fn lemma_transfer_conserves_total(
    pre: Ledger,
    mid: Ledger,
    post: Ledger,
    from: u64,
    to: u64,
    asset: u64,
    amount: u128,
    x: u64,
)
    requires
        debit_rel(pre, mid, from, asset, amount),
        credit_rel(mid, post, to, asset, amount),
    ensures
        post.total_of(x) == pre.total_of(x),
{
}

} // verus!

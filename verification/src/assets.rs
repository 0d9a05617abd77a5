//! A small exact-lookup table from asset identifiers to amounts, with at most
//! one entry per asset. It backs the settlement engine's holding register and
//! the ledger's per-asset minimum-balance table.

use vstd::prelude::*;

verus! {

/// One asset's quantity, keyed by the asset identifier.
#[derive(Clone, Copy)]
pub struct AssetAmount {
    pub asset: u64,
    pub amount: u128,
}

/// The amount recorded for `asset` in `s`: the first matching entry's amount,
/// or 0 when no entry matches.
pub open spec fn amount_in(s: Seq<AssetAmount>, asset: u64) -> u128
    decreases s.len(),
{
    if s.len() == 0 {
        0
    } else if s[0].asset == asset {
        s[0].amount
    } else {
        amount_in(s.drop_first(), asset)
    }
}

/// No two entries name the same asset.
pub open spec fn distinct_assets(s: Seq<AssetAmount>) -> bool {
    forall|i: int, j: int| 0 <= i < j < s.len() ==> s[i].asset != s[j].asset
}

pub proof fn lemma_distinct_drop_first(s: Seq<AssetAmount>)
    requires
        distinct_assets(s),
        s.len() > 0,
    ensures
        distinct_assets(s.drop_first()),
{
    assert forall|i: int, j: int| 0 <= i < j < s.drop_first().len() implies s.drop_first()[i].asset
        != s.drop_first()[j].asset by {
        assert(s[i + 1].asset != s[j + 1].asset);
    }
}

pub proof fn lemma_amount_in_absent(s: Seq<AssetAmount>, asset: u64)
    requires
        forall|k: int| 0 <= k < s.len() ==> s[k].asset != asset,
    ensures
        amount_in(s, asset) == 0,
    decreases s.len(),
{
    if s.len() > 0 {
        lemma_amount_in_absent(s.drop_first(), asset);
    }
}

pub proof fn lemma_amount_in_at(s: Seq<AssetAmount>, i: int)
    requires
        distinct_assets(s),
        0 <= i < s.len(),
    ensures
        amount_in(s, s[i].asset) == s[i].amount,
    decreases i,
{
    if i > 0 {
        lemma_distinct_drop_first(s);
        lemma_amount_in_at(s.drop_first(), i - 1);
    }
}

pub proof fn lemma_amount_in_update(s: Seq<AssetAmount>, i: int, e: AssetAmount, x: u64)
    requires
        distinct_assets(s),
        0 <= i < s.len(),
        e.asset == s[i].asset,
    ensures
        amount_in(s.update(i, e), x) == if x == e.asset {
            e.amount
        } else {
            amount_in(s, x)
        },
    decreases i,
{
    if i == 0 {
        assert(s.update(0, e).drop_first() =~= s.drop_first());
    } else {
        lemma_distinct_drop_first(s);
        assert(s.update(i, e).drop_first() =~= s.drop_first().update(i - 1, e));
        lemma_amount_in_update(s.drop_first(), i - 1, e, x);
    }
}

pub proof fn lemma_amount_in_push(s: Seq<AssetAmount>, e: AssetAmount, x: u64)
    requires
        forall|k: int| 0 <= k < s.len() ==> s[k].asset != e.asset,
    ensures
        amount_in(s.push(e), x) == if x == e.asset {
            e.amount
        } else {
            amount_in(s, x)
        },
    decreases s.len(),
{
    reveal_with_fuel(amount_in, 3);
    if s.len() == 0 {
        assert(s.push(e)[0] == e);
        assert(s.push(e).drop_first() =~= Seq::<AssetAmount>::empty());
    } else {
        assert(s.push(e)[0] == s[0]);
        assert(s.push(e).drop_first() =~= s.drop_first().push(e));
        assert forall|k: int| 0 <= k < s.drop_first().len() implies s.drop_first()[k].asset
            != e.asset by {
            assert(s[k + 1].asset != e.asset);
        }
        lemma_amount_in_push(s.drop_first(), e, x);
    }
}

/// A table of per-asset amounts with at most one entry per asset.
pub struct AssetBag {
    pub entries: Vec<AssetAmount>,
}

impl AssetBag {
    /// Entries name pairwise distinct assets, so lookup is unambiguous.
    pub open spec fn wf(self) -> bool {
        distinct_assets(self.entries@)
    }

    /// The amount held for `asset` (0 when the asset has no entry).
    pub open spec fn amount_of(self, asset: u64) -> u128 {
        amount_in(self.entries@, asset)
    }

    pub fn new() -> (b: AssetBag)
        ensures
            b.wf(),
            b.entries@.len() == 0,
            forall|x: u64| b.amount_of(x) == 0,
    {
        AssetBag { entries: Vec::new() }
    }

    /// The index of the entry for `asset`, when one exists.
    fn find(&self, asset: u64) -> (r: Option<usize>)
        requires
            self.wf(),
        ensures
            match r {
                Some(i) => i < self.entries@.len() && self.entries@[i as int].asset == asset
                    && self.amount_of(asset) == self.entries@[i as int].amount,
                None => self.amount_of(asset) == 0 && forall|k: int|
                    0 <= k < self.entries@.len() ==> self.entries@[k].asset != asset,
            },
    {
        let n = self.entries.len();
        let mut i: usize = 0;
        while i < n
            invariant
                n == self.entries@.len(),
                i <= n,
                self.wf(),
                forall|k: int| 0 <= k < i ==> self.entries@[k].asset != asset,
            decreases n - i,
        {
            if self.entries[i].asset == asset {
                proof {
                    lemma_amount_in_at(self.entries@, i as int);
                }
                return Some(i);
            }
            i = i + 1;
        }
        proof {
            lemma_amount_in_absent(self.entries@, asset);
        }
        None
    }

    /// Reads the amount held for `asset`.
    pub fn get(&self, asset: u64) -> (r: u128)
        requires
            self.wf(),
        ensures
            r == self.amount_of(asset),
    {
        match self.find(asset) {
            Some(i) => self.entries[i].amount,
            None => 0,
        }
    }

    /// Sets the amount held for `asset` to `v`, leaving every other asset as it was.
    pub fn set(&mut self, asset: u64, v: u128)
        requires
            old(self).wf(),
        ensures
            final(self).wf(),
            final(self).amount_of(asset) == v,
            forall|x: u64| x != asset ==> final(self).amount_of(x) == old(self).amount_of(x),
    {
        let e = AssetAmount { asset, amount: v };
        match self.find(asset) {
            Some(i) => {
                proof {
                    let s = self.entries@;
                    assert forall|x: u64|
                        amount_in(s.update(i as int, e), x) == if x == asset {
                            v
                        } else {
                            amount_in(s, x)
                        } by {
                        lemma_amount_in_update(s, i as int, e, x);
                    }
                    assert forall|p: int, q: int|
                        0 <= p < q < s.update(i as int, e).len() implies s.update(i as int, e)[p].asset
                        != s.update(i as int, e)[q].asset by {
                        assert(s[p].asset != s[q].asset);
                    }
                }
                self.entries.set(i, e);
            },
            None => {
                proof {
                    let s = self.entries@;
                    assert forall|x: u64|
                        amount_in(s.push(e), x) == if x == asset {
                            v
                        } else {
                            amount_in(s, x)
                        } by {
                        lemma_amount_in_push(s, e, x);
                    }
                    assert forall|p: int, q: int|
                        0 <= p < q < s.push(e).len() implies s.push(e)[p].asset
                        != s.push(e)[q].asset by {
                        if q < s.len() {
                            assert(s[p].asset != s[q].asset);
                        }
                    }
                }
                self.entries.push(e);
            },
        }
    }
}

} // verus!

//! Portfolio custody: balances, token locks, non-fungible ownership and holding limits.
use crate::table::{Table, TableKey};
use crate::types::{AssetView, Balance, LegAsset, LegV2, LegView, PortfolioId, Ticker};
use vstd::prelude::*;

verus! {

#[derive(Clone, Copy, Debug, PartialEq, Eq, Structural)]
pub struct HoldingKey {
    pub portfolio: PortfolioId,
    pub ticker: Ticker,
}

/// What a portfolio holds of a fungible asset, and how much of it is locked.
#[derive(Clone, Copy, Debug, PartialEq, Eq, Structural)]
pub struct Holding {
    pub total: Balance,
    pub locked: Balance,
}

#[derive(Clone, Copy, Debug, PartialEq, Eq, Structural)]
pub struct NftKey {
    pub ticker: Ticker,
    pub id: u64,
}

/// The owner of a non-fungible token, and whether it is locked there.
#[derive(Clone, Copy, Debug, PartialEq, Eq, Structural)]
pub struct NftHolding {
    pub owner: PortfolioId,
    pub locked: bool,
}

impl TableKey for HoldingKey {
    fn same(&self, other: &Self) -> (r: bool) {
        *self == *other
    }
}

impl TableKey for NftKey {
    fn same(&self, other: &Self) -> (r: bool) {
        *self == *other
    }
}

/// The ledger as a value of specifications.
pub struct LedgerView {
    pub holdings: Map<HoldingKey, Holding>,
    pub nfts: Map<NftKey, NftHolding>,
    /// The most that one portfolio may hold of a ticker, where one is set.
    pub limits: Map<Ticker, Balance>,
}

pub open spec fn holding_of(l: LedgerView, p: PortfolioId, t: Ticker) -> Holding {
    let k = HoldingKey { portfolio: p, ticker: t };
    if l.holdings.contains_key(k) {
        l.holdings[k]
    } else {
        Holding { total: 0, locked: 0 }
    }
}

pub open spec fn with_holding(l: LedgerView, p: PortfolioId, t: Ticker, h: Holding) -> LedgerView {
    LedgerView {
        holdings: l.holdings.insert(HoldingKey { portfolio: p, ticker: t }, h),
        ..l
    }
}

pub open spec fn with_nft(l: LedgerView, t: Ticker, id: u64, n: NftHolding) -> LedgerView {
    LedgerView { nfts: l.nfts.insert(NftKey { ticker: t, id }, n), ..l }
}

pub open spec fn limit_of(l: LedgerView, t: Ticker) -> int {
    if l.limits.contains_key(t) {
        l.limits[t] as int
    } else {
        u128::MAX as int
    }
}

/// Locks `amt` more of `p`'s free balance of `t`.
pub open spec fn lock_fungible(l: LedgerView, p: PortfolioId, t: Ticker, amt: Balance) -> Option<
    LedgerView,
> {
    let h = holding_of(l, p, t);
    if h.locked + amt <= h.total {
        Some(with_holding(l, p, t, Holding { total: h.total, locked: (h.locked + amt) as u128 }))
    } else {
        None
    }
}

/// Releases `amt` of `p`'s locked balance of `t`.
pub open spec fn unlock_fungible(l: LedgerView, p: PortfolioId, t: Ticker, amt: Balance) -> Option<
    LedgerView,
> {
    let h = holding_of(l, p, t);
    if amt <= h.locked {
        Some(with_holding(l, p, t, Holding { total: h.total, locked: (h.locked - amt) as u128 }))
    } else {
        None
    }
}

/// Moves `amt` of `t` from `from`'s free balance to `to`, within `to`'s holding limit.
pub open spec fn transfer_fungible(
    l: LedgerView,
    from: PortfolioId,
    to: PortfolioId,
    t: Ticker,
    amt: Balance,
) -> Option<LedgerView> {
    let hf = holding_of(l, from, t);
    if hf.locked + amt <= hf.total {
        let l1 = with_holding(l, from, t, Holding { total: (hf.total - amt) as u128, ..hf });
        let ht = holding_of(l1, to, t);
        if ht.total + amt <= limit_of(l1, t) {
            Some(with_holding(l1, to, t, Holding { total: (ht.total + amt) as u128, ..ht }))
        } else {
            None
        }
    } else {
        None
    }
}

/// `op` on the token `id` of `t`, which `from` must own.
pub open spec fn nft_step(l: LedgerView, from: PortfolioId, to: PortfolioId, t: Ticker, id: u64, op: NftOp) -> Option<
    LedgerView,
> {
    let k = NftKey { ticker: t, id };
    if !l.nfts.contains_key(k) || l.nfts[k].owner != from {
        None
    } else {
        match op {
            NftOp::Lock => if l.nfts[k].locked {
                None
            } else {
                Some(with_nft(l, t, id, NftHolding { owner: from, locked: true }))
            },
            NftOp::Unlock => if l.nfts[k].locked {
                Some(with_nft(l, t, id, NftHolding { owner: from, locked: false }))
            } else {
                None
            },
            NftOp::Transfer => if l.nfts[k].locked {
                None
            } else {
                Some(with_nft(l, t, id, NftHolding { owner: to, locked: false }))
            },
        }
    }
}

/// What is done to each non-fungible token of a leg.
#[derive(Clone, Copy, Debug, PartialEq, Eq, Structural)]
pub enum NftOp {
    Lock,
    Unlock,
    Transfer,
}

/// `op` on each token of `ids` in turn; `None` as soon as one step fails.
pub open spec fn nft_steps(
    l: LedgerView,
    from: PortfolioId,
    to: PortfolioId,
    t: Ticker,
    ids: Seq<u64>,
    op: NftOp,
) -> Option<LedgerView>
    decreases ids.len(),
{
    if ids.len() == 0 {
        Some(l)
    } else {
        match nft_steps(l, from, to, t, ids.drop_last(), op) {
            Some(l1) => nft_step(l1, from, to, t, ids.last(), op),
            None => None,
        }
    }
}

/// Locks what the sender of `leg` gives.
pub open spec fn lock_leg(l: LedgerView, leg: LegView) -> Option<LedgerView> {
    match leg.asset {
        AssetView::Fungible { ticker, amount } => lock_fungible(l, leg.from, ticker, amount),
        AssetView::NonFungible { ticker, ids } => nft_steps(
            l,
            leg.from,
            leg.to,
            ticker,
            ids,
            NftOp::Lock,
        ),
    }
}

/// Releases what `lock_leg` locked.
pub open spec fn unlock_leg(l: LedgerView, leg: LegView) -> Option<LedgerView> {
    match leg.asset {
        AssetView::Fungible { ticker, amount } => unlock_fungible(l, leg.from, ticker, amount),
        AssetView::NonFungible { ticker, ids } => nft_steps(
            l,
            leg.from,
            leg.to,
            ticker,
            ids,
            NftOp::Unlock,
        ),
    }
}

/// Moves what `leg` moves from its sender to its receiver.
pub open spec fn transfer_leg(l: LedgerView, leg: LegView) -> Option<LedgerView> {
    match leg.asset {
        AssetView::Fungible { ticker, amount } => transfer_fungible(
            l,
            leg.from,
            leg.to,
            ticker,
            amount,
        ),
        AssetView::NonFungible { ticker, ids } => nft_steps(
            l,
            leg.from,
            leg.to,
            ticker,
            ids,
            NftOp::Transfer,
        ),
    }
}

pub open spec fn ledger_wf(l: LedgerView) -> bool {
    forall|k: HoldingKey| #[trigger] l.holdings.contains_key(k) ==> l.holdings[k].locked <= l.holdings[k].total
}

/// The balances, locks and non-fungible tokens of all portfolios.
pub struct Ledger {
    holdings: Table<HoldingKey, Holding>,
    nfts: Table<NftKey, NftHolding>,
    limits: Table<Ticker, Balance>,
}

impl View for Ledger {
    type V = LedgerView;

    closed spec fn view(&self) -> LedgerView {
        LedgerView {
            holdings: self.holdings.view(),
            nfts: self.nfts.view(),
            limits: self.limits.view(),
        }
    }
}

impl Ledger {
    pub closed spec fn wf(&self) -> bool {
        self.holdings.wf() && self.nfts.wf() && self.limits.wf() && ledger_wf(self@)
    }

    /// An empty ledger.
    pub fn new() -> (r: Ledger)
        ensures
            r.wf(),
            r@.holdings == Map::<HoldingKey, Holding>::empty(),
            r@.nfts == Map::<NftKey, NftHolding>::empty(),
            r@.limits == Map::<Ticker, Balance>::empty(),
    {
        Ledger { holdings: Table::new(), nfts: Table::new(), limits: Table::new() }
    }

    /// A copy of the ledger.
    pub fn duplicate(&self) -> (r: Ledger)
        requires
            self.wf(),
        ensures
            r.wf(),
            r@ == self@,
    {
        Ledger {
            holdings: self.holdings.duplicate(),
            nfts: self.nfts.duplicate(),
            limits: self.limits.duplicate(),
        }
    }

    /// What `p` holds of `t`.
    pub fn holding(&self, p: PortfolioId, t: Ticker) -> (r: Holding)
        requires
            self.wf(),
        ensures
            r == holding_of(self@, p, t),
    {
        match self.holdings.get(&HoldingKey { portfolio: p, ticker: t }) {
            Some(h) => h,
            None => Holding { total: 0, locked: 0 },
        }
    }

    /// The total balance of `t` in `p`, locked or not.
    pub fn balance(&self, p: PortfolioId, t: Ticker) -> (r: Balance)
        requires
            self.wf(),
        ensures
            r == holding_of(self@, p, t).total,
    {
        self.holding(p, t).total
    }

    /// The owner of a non-fungible token, if it exists.
    pub fn nft(&self, t: Ticker, id: u64) -> (r: Option<NftHolding>)
        requires
            self.wf(),
        ensures
            r == (if self@.nfts.contains_key(NftKey { ticker: t, id }) {
                Some(self@.nfts[NftKey { ticker: t, id }])
            } else {
                None::<NftHolding>
            }),
    {
        self.nfts.get(&NftKey { ticker: t, id })
    }

    fn set_holding(&mut self, p: PortfolioId, t: Ticker, h: Holding)
        requires
            old(self).wf(),
            h.locked <= h.total,
        ensures
            final(self).wf(),
            final(self)@ == with_holding(old(self)@, p, t, h),
    {
        self.holdings.insert(HoldingKey { portfolio: p, ticker: t }, h);
        assert(self@ == with_holding(old(self)@, p, t, h));
    }

    fn set_nft(&mut self, t: Ticker, id: u64, n: NftHolding)
        requires
            old(self).wf(),
        ensures
            final(self).wf(),
            final(self)@ == with_nft(old(self)@, t, id, n),
    {
        self.nfts.insert(NftKey { ticker: t, id }, n);
        assert(self@ == with_nft(old(self)@, t, id, n));
    }

    /// Adds `amount` of `t` to `p`'s balance; fails where the total would overflow.
    pub fn deposit(&mut self, p: PortfolioId, t: Ticker, amount: Balance) -> (r: bool)
        requires
            old(self).wf(),
        ensures
            final(self).wf(),
            r == (holding_of(old(self)@, p, t).total + amount <= u128::MAX),
            r ==> final(self)@ == with_holding(
                old(self)@,
                p,
                t,
                Holding {
                    total: (holding_of(old(self)@, p, t).total + amount) as u128,
                    ..holding_of(old(self)@, p, t)
                },
            ),
            !r ==> final(self)@ == old(self)@,
    {
        let h = self.holding(p, t);
        if amount > u128::MAX - h.total {
            return false;
        }
        self.set_holding(p, t, Holding { total: h.total + amount, locked: h.locked });
        true
    }

    /// Creates the non-fungible token `id` of `t` in `p`; fails where it already exists.
    pub fn mint_nft(&mut self, p: PortfolioId, t: Ticker, id: u64) -> (r: bool)
        requires
            old(self).wf(),
        ensures
            final(self).wf(),
            r == !old(self)@.nfts.contains_key(NftKey { ticker: t, id }),
            r ==> final(self)@ == with_nft(old(self)@, t, id, NftHolding { owner: p, locked: false }),
            !r ==> final(self)@ == old(self)@,
    {
        if self.nfts.contains(&NftKey { ticker: t, id }) {
            return false;
        }
        self.set_nft(t, id, NftHolding { owner: p, locked: false });
        true
    }

    /// Sets the most that one portfolio may hold of `t`.
    pub fn set_holding_limit(&mut self, t: Ticker, max: Balance)
        requires
            old(self).wf(),
        ensures
            final(self).wf(),
            final(self)@ == (LedgerView { limits: old(self)@.limits.insert(t, max), ..old(self)@ }),
    {
        self.limits.insert(t, max);
        assert(self@ == (LedgerView { limits: old(self)@.limits.insert(t, max), ..old(self)@ }));
    }

    fn fungible_op(&mut self, from: PortfolioId, to: PortfolioId, t: Ticker, amt: Balance, op: NftOp) -> (r: bool)
        requires
            old(self).wf(),
        ensures
            final(self).wf(),
            ({
                let s = match op {
                    NftOp::Lock => lock_fungible(old(self)@, from, t, amt),
                    NftOp::Unlock => unlock_fungible(old(self)@, from, t, amt),
                    NftOp::Transfer => transfer_fungible(old(self)@, from, to, t, amt),
                };
                &&& r == s.is_some()
                &&& r ==> final(self)@ == s.unwrap()
                &&& !r ==> final(self)@ == old(self)@
            }),
    {
        let hf = self.holding(from, t);
        match op {
            NftOp::Lock => {
                if amt > hf.total - hf.locked {
                    return false;
                }
                self.set_holding(from, t, Holding { total: hf.total, locked: hf.locked + amt });
                true
            },
            NftOp::Unlock => {
                if amt > hf.locked {
                    return false;
                }
                self.set_holding(from, t, Holding { total: hf.total, locked: hf.locked - amt });
                true
            },
            NftOp::Transfer => {
                if amt > hf.total - hf.locked {
                    return false;
                }
                let ghost l0 = self@;
                let ghost l1 = with_holding(l0, from, t, Holding { total: (hf.total - amt) as u128, ..hf });
                let ht0 = if from == to {
                    Holding { total: hf.total - amt, locked: hf.locked }
                } else {
                    self.holding(to, t)
                };
                assert(ht0 == holding_of(l1, to, t));
                let limit = match self.limits.get(&t) {
                    Some(m) => m,
                    None => u128::MAX,
                };
                if amt > limit || ht0.total > limit - amt {
                    return false;
                }
                self.set_holding(from, t, Holding { total: hf.total - amt, locked: hf.locked });
                self.set_holding(to, t, Holding { total: ht0.total + amt, locked: ht0.locked });
                true
            },
        }
    }

    fn nft_op(&mut self, from: PortfolioId, to: PortfolioId, t: Ticker, ids: &Vec<u64>, op: NftOp) -> (r: bool)
        requires
            old(self).wf(),
        ensures
            final(self).wf(),
            r == nft_steps(old(self)@, from, to, t, ids@, op).is_some(),
            r ==> final(self)@ == nft_steps(old(self)@, from, to, t, ids@, op).unwrap(),
            !r ==> final(self)@ == old(self)@,
    {
        let mut staged = self.duplicate();
        let mut i: usize = 0;
        while i < ids.len()
            invariant
                staged.wf(),
                self.wf(),
                self@ == old(self)@,
                i <= ids@.len(),
                nft_steps(self@, from, to, t, ids@.subrange(0, i as int), op) == Some(staged@),
            decreases ids@.len() - i,
        {
            let ghost before = staged@;
            let id = ids[i];
            assert(ids@.subrange(0, i + 1).drop_last() =~= ids@.subrange(0, i as int));
            let k = NftKey { ticker: t, id };
            let n = match staged.nft(t, id) {
                Some(n) => n,
                None => {
                    proof {
                        lemma_nft_steps_fail(self@, from, to, t, ids@, i as int, op);
                    }
                    return false;
                },
            };
            if n.owner != from {
                proof {
                    lemma_nft_steps_fail(self@, from, to, t, ids@, i as int, op);
                }
                return false;
            }
            let next = match op {
                NftOp::Lock => if n.locked {
                    None
                } else {
                    Some(NftHolding { owner: from, locked: true })
                },
                NftOp::Unlock => if n.locked {
                    Some(NftHolding { owner: from, locked: false })
                } else {
                    None
                },
                NftOp::Transfer => if n.locked {
                    None
                } else {
                    Some(NftHolding { owner: to, locked: false })
                },
            };
            match next {
                Some(nh) => {
                    staged.set_nft(t, id, nh);
                },
                None => {
                    proof {
                        lemma_nft_steps_fail(self@, from, to, t, ids@, i as int, op);
                    }
                    return false;
                },
            }
            i = i + 1;
        }
        assert(ids@.subrange(0, ids@.len() as int) =~= ids@);
        *self = staged;
        true
    }

    /// Locks what the sender of `leg` gives; on failure nothing changes.
    pub fn lock_leg(&mut self, leg: &LegV2) -> (r: bool)
        requires
            old(self).wf(),
        ensures
            final(self).wf(),
            r == lock_leg(old(self)@, leg@).is_some(),
            r ==> final(self)@ == lock_leg(old(self)@, leg@).unwrap(),
            !r ==> final(self)@ == old(self)@,
    {
        match &leg.asset {
            LegAsset::Fungible { ticker, amount } => self.fungible_op(leg.from, leg.to, *ticker, *amount, NftOp::Lock),
            LegAsset::NonFungible(nfts) => self.nft_op(leg.from, leg.to, nfts.ticker, &nfts.ids, NftOp::Lock),
        }
    }

    /// Releases what `lock_leg` locked; on failure nothing changes.
    pub fn unlock_leg(&mut self, leg: &LegV2) -> (r: bool)
        requires
            old(self).wf(),
        ensures
            final(self).wf(),
            r == unlock_leg(old(self)@, leg@).is_some(),
            r ==> final(self)@ == unlock_leg(old(self)@, leg@).unwrap(),
            !r ==> final(self)@ == old(self)@,
    {
        match &leg.asset {
            LegAsset::Fungible { ticker, amount } => self.fungible_op(leg.from, leg.to, *ticker, *amount, NftOp::Unlock),
            LegAsset::NonFungible(nfts) => self.nft_op(leg.from, leg.to, nfts.ticker, &nfts.ids, NftOp::Unlock),
        }
    }

    /// Moves what `leg` moves; on failure nothing changes.
    pub fn transfer_leg(&mut self, leg: &LegV2) -> (r: bool)
        requires
            old(self).wf(),
        ensures
            final(self).wf(),
            r == transfer_leg(old(self)@, leg@).is_some(),
            r ==> final(self)@ == transfer_leg(old(self)@, leg@).unwrap(),
            !r ==> final(self)@ == old(self)@,
    {
        match &leg.asset {
            LegAsset::Fungible { ticker, amount } => self.fungible_op(leg.from, leg.to, *ticker, *amount, NftOp::Transfer),
            LegAsset::NonFungible(nfts) => self.nft_op(leg.from, leg.to, nfts.ticker, &nfts.ids, NftOp::Transfer),
        }
    }
}

/// Once a step fails, the whole sequence fails.
proof fn lemma_nft_steps_fail(
    l: LedgerView,
    from: PortfolioId,
    to: PortfolioId,
    t: Ticker,
    ids: Seq<u64>,
    i: int,
    op: NftOp,
)
    requires
        0 <= i < ids.len(),
        nft_steps(l, from, to, t, ids.subrange(0, i + 1), op) is None,
    ensures
        nft_steps(l, from, to, t, ids, op) is None,
    decreases ids.len() - i,
{
    if i + 1 < ids.len() {
        assert(ids.subrange(0, i + 2).drop_last() =~= ids.subrange(0, i + 1));
        lemma_nft_steps_fail(l, from, to, t, ids, i + 1, op);
    } else {
        assert(ids.subrange(0, i + 1) =~= ids);
    }
}

} // verus!

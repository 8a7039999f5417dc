//! The settlement engine: venues, instructions, affirmations, receipts and atomic execution.
use crate::portfolio::{
    lock_leg, transfer_leg, unlock_leg, Ledger, LedgerView,
};
use crate::table::{Table, TableKey};
use crate::types::{
    checked, legacy_of, legs_to_v2, Leg, AccountId, AffirmationStatus, AssetView, Balance, BlockNumber, IdentityId, Instruction,
    InstructionId, InstructionMemo, InstructionStatus, LegAsset, LegId, LegStatus, LegV2,
    LegView, Moment, PortfolioId, Receipt, ReceiptDetails, ReceiptDetailsView, SettlementError, SettlementType,
    Ticker, TransferData, Venue, VenueDetails, VenueId, VenueType,
};
use vstd::prelude::*;

verus! {

/// Bounds that the runtime sets on instructions and venues.
#[derive(Clone, Copy, Debug, PartialEq, Eq, Structural)]
pub struct SettlementConfig {
    /// The most fungible legs in one instruction.
    pub max_fungible_legs: u32,
    /// The most non-fungible tokens in one leg.
    pub max_nfts_per_leg: u32,
    /// The most non-fungible tokens in one instruction.
    pub max_nfts: u32,
    /// The longest venue details, in bytes.
    pub max_details_len: u64,
}

/// A used-receipt record is keyed by its signer and its number.
#[derive(Clone, Copy, Debug, PartialEq, Eq, Structural)]
pub struct ReceiptKey {
    pub signer: AccountId,
    pub uid: u64,
}

/// An asset's allow-list holds venues.
#[derive(Clone, Copy, Debug, PartialEq, Eq, Structural)]
pub struct AllowKey {
    pub ticker: Ticker,
    pub venue: VenueId,
}

impl TableKey for ReceiptKey {
    fn same(&self, other: &Self) -> (r: bool) {
        *self == *other
    }
}

impl TableKey for AllowKey {
    fn same(&self, other: &Self) -> (r: bool) {
        *self == *other
    }
}

impl TableKey for InstructionId {
    fn same(&self, other: &Self) -> (r: bool) {
        *self == *other
    }
}

/// What happened, in order.
#[derive(Clone, Copy, Debug, PartialEq, Eq, Structural)]
pub enum Event {
    VenueCreated(IdentityId, VenueId),
    VenueDetailsUpdated(IdentityId, VenueId),
    VenueTypeUpdated(IdentityId, VenueId, VenueType),
    VenueSignersUpdated(IdentityId, VenueId, bool),
    VenueFiltering(IdentityId, Ticker, bool),
    VenuesAllowed(IdentityId, Ticker),
    VenuesBlocked(IdentityId, Ticker),
    ReceiptValidityChanged(AccountId, u64, bool),
    InstructionCreated(IdentityId, VenueId, InstructionId),
    InstructionAffirmed(IdentityId, PortfolioId, InstructionId),
    AffirmationWithdrawn(IdentityId, PortfolioId, InstructionId),
    InstructionRejected(IdentityId, InstructionId),
    ReceiptClaimed(IdentityId, InstructionId, LegId, u64, AccountId),
    ReceiptUnclaimed(InstructionId, LegId, u64, AccountId),
    VenueUnauthorized(Ticker, VenueId),
    LegFailedExecution(InstructionId, LegId),
    InstructionFailed(InstructionId),
    InstructionExecuted(InstructionId),
    SchedulingFailed(InstructionId),
    InstructionRescheduled(IdentityId, InstructionId),
    SettlementManuallyExecuted(IdentityId, InstructionId),
    FailedToExecuteInstruction(InstructionId, SettlementError),
}

struct VenueRecord {
    info: Venue,
    details: VenueDetails,
    signers: Table<AccountId, ()>,
}

struct InstructionRecord {
    details: Option<Instruction>,
    status: InstructionStatus,
    legs: Vec<LegV2>,
    leg_status: Vec<LegStatus>,
    affirmations: Table<PortfolioId, AffirmationStatus>,
    affirms_pending: u64,
    memo: Option<InstructionMemo>,
}

/// A venue as a value of specifications.
pub struct VenueView {
    pub info: Venue,
    pub details: Seq<u8>,
    pub signers: Set<AccountId>,
}

/// An instruction as a value of specifications. Once pruned, only its status remains.
pub struct InstructionView {
    /// `None` once the instruction is pruned.
    pub details: Option<Instruction>,
    pub status: InstructionStatus,
    /// The legs; a leg's id is its index.
    pub legs: Seq<LegView>,
    pub leg_status: Seq<LegStatus>,
    /// The affirmation status of each counter-party.
    pub affirmations: Map<PortfolioId, AffirmationStatus>,
    pub affirms_pending: u64,
    pub memo: Option<InstructionMemo>,
}

/// The whole settlement state as a value of specifications.
pub struct SettlementView {
    pub config: SettlementConfig,
    /// The current block.
    pub block: BlockNumber,
    /// The current time.
    pub now: Moment,
    /// Venue `v` is at index `v - 1`.
    pub venues: Seq<VenueView>,
    /// Instruction `i` is at index `i - 1`.
    pub instructions: Seq<InstructionView>,
    /// Whether each receipt that was ever marked is used.
    pub receipts_used: Map<ReceiptKey, bool>,
    /// Assets that filter venues.
    pub filtering: Set<Ticker>,
    /// Venues on the allow-list of each asset.
    pub allowed: Set<AllowKey>,
    /// Assets issued on chain, with the identity that acts for each; off-chain receipts
    /// cannot settle them.
    pub tokens: Map<Ticker, IdentityId>,
    pub ledger: LedgerView,
    /// Pending scheduled executions: instruction and block.
    pub scheduled: Map<InstructionId, BlockNumber>,
    /// Portfolios whose custody was handed to an identity other than their owner.
    pub custodians: Map<PortfolioId, IdentityId>,
    pub events: Seq<Event>,
}

/// The state of the settlement engine and of the portfolios it settles.
pub struct Settlement {
    config: SettlementConfig,
    block: BlockNumber,
    now: Moment,
    venues: Vec<VenueRecord>,
    instructions: Vec<InstructionRecord>,
    receipts_used: Table<ReceiptKey, bool>,
    filtering: Table<Ticker, ()>,
    allowed: Table<AllowKey, ()>,
    tokens: Table<Ticker, IdentityId>,
    ledger: Ledger,
    scheduled: Table<InstructionId, BlockNumber>,
    custodians: Table<PortfolioId, IdentityId>,
    events: Vec<Event>,
}

impl VenueRecord {
    closed spec fn view(&self) -> VenueView {
        VenueView {
            info: self.info,
            details: self.details.0@,
            signers: self.signers.view().dom(),
        }
    }
}

impl InstructionRecord {
    closed spec fn view(&self) -> InstructionView {
        InstructionView {
            details: self.details,
            status: self.status,
            legs: leg_views(self.legs@),
            leg_status: self.leg_status@,
            affirmations: self.affirmations.view(),
            affirms_pending: self.affirms_pending,
            memo: self.memo,
        }
    }
}

/// Whether `id` names an instruction of `s`.
pub open spec fn has_instruction(s: SettlementView, id: InstructionId) -> bool {
    1 <= id.0 <= s.instructions.len()
}

/// The instruction `id` of `s`.
pub open spec fn instr(s: SettlementView, id: InstructionId) -> InstructionView {
    s.instructions[id.0 - 1]
}

/// The status of instruction `id`: `Unknown` where there is none.
pub open spec fn status_of(s: SettlementView, id: InstructionId) -> InstructionStatus {
    if has_instruction(s, id) {
        instr(s, id).status
    } else {
        InstructionStatus::Unknown
    }
}

/// The number of affirmations that instruction `id` still waits for.
pub open spec fn pending_of(s: SettlementView, id: InstructionId) -> u64 {
    if has_instruction(s, id) {
        instr(s, id).affirms_pending
    } else {
        0
    }
}

/// Whether venue `v` exists in `s`.
pub open spec fn has_venue(s: SettlementView, v: VenueId) -> bool {
    1 <= v.0 <= s.venues.len()
}

pub open spec fn venue_of(s: SettlementView, v: VenueId) -> VenueView {
    s.venues[v.0 - 1]
}

/// Whether receipt (signer, uid) is marked used.
pub open spec fn receipt_used(s: SettlementView, k: ReceiptKey) -> bool {
    s.receipts_used.contains_key(k) && s.receipts_used[k]
}

/// Whether `did` may act for portfolio `p`: its custodian, which is its owner unless custody
/// was handed to another identity.
pub open spec fn has_custody(s: SettlementView, p: PortfolioId, did: IdentityId) -> bool {
    if s.custodians.contains_key(p) {
        s.custodians[p] == did
    } else {
        p.did == did
    }
}

/// Whether venue `v` may move `t`: `t` does not filter venues, or allow-lists `v`.
pub open spec fn venue_may_move(s: SettlementView, t: Ticker, v: VenueId) -> bool {
    !s.filtering.contains(t) || s.allowed.contains(AllowKey { ticker: t, venue: v })
}

/// What managing venue `v`, or adding an instruction to it, demands of `did`: the venue exists
/// and `did` created it.
pub open spec fn venue_check(s: SettlementView, v: VenueId, did: IdentityId) -> Result<(), SettlementError> {
    if !has_venue(s, v) {
        Err(SettlementError::InvalidVenue)
    } else if venue_of(s, v).info.creator != did {
        Err(SettlementError::Unauthorized)
    } else {
        Ok(())
    }
}

/// What holds of every state the engine reaches: the block can advance, an instruction keeps
/// its details exactly while pending or failed, and its pending count counts the parties that
/// have not affirmed.
pub open spec fn valid_state(s: SettlementView) -> bool {
    &&& s.block < u32::MAX
    &&& forall|i: int|
        0 <= i < s.instructions.len() ==> ((#[trigger] s.instructions[i]).status is Pending
            || s.instructions[i].status is Failed <==> s.instructions[i].details is Some)
            && counts_pending(s.instructions[i].affirmations, s.instructions[i].affirms_pending)
}

impl Settlement {
    /// A well-formed engine is in a valid state.
    pub proof fn lemma_valid_state(&self)
        requires
            self.wf(),
        ensures
            valid_state(self.view()),
    {
        assert forall|i: int| 0 <= i < self.view().instructions.len() implies ((#[trigger] self.view().instructions[i]).status is Pending
            || self.view().instructions[i].status is Failed <==> self.view().instructions[i].details is Some)
            && counts_pending(self.view().instructions[i].affirmations, self.view().instructions[i].affirms_pending) by {
            assert(self.instructions@[i].rec_wf());
        }
    }

    pub closed spec fn view(&self) -> SettlementView {
        SettlementView {
            config: self.config,
            block: self.block,
            now: self.now,
            venues: self.venues@.map_values(|v: VenueRecord| v.view()),
            instructions: self.instructions@.map_values(|i: InstructionRecord| i.view()),
            receipts_used: self.receipts_used.view(),
            filtering: self.filtering.view().dom(),
            allowed: self.allowed.view().dom(),
            tokens: self.tokens.view(),
            ledger: self.ledger@,
            scheduled: self.scheduled.view(),
            custodians: self.custodians.view(),
            events: self.events@,
        }
    }

    pub closed spec fn wf(&self) -> bool {
        &&& self.block < u32::MAX
        &&& self.receipts_used.wf()
        &&& self.filtering.wf()
        &&& self.allowed.wf()
        &&& self.tokens.wf()
        &&& self.ledger.wf()
        &&& self.scheduled.wf()
        &&& self.custodians.wf()
        &&& forall|i: int| 0 <= i < self.venues@.len() ==> (#[trigger] self.venues@[i]).signers.wf()
        &&& forall|i: int|
            0 <= i < self.instructions@.len() ==> (#[trigger] self.instructions@[i]).rec_wf()
    }

    /// A settlement engine with no venues and no instructions, at block `block` and time `now`.
    pub fn new(config: SettlementConfig, block: BlockNumber, now: Moment) -> (r: Settlement)
        requires
            block < u32::MAX,
        ensures
            r.wf(),
            r.view().config == config,
            r.view().block == block,
            r.view().now == now,
            r.view().venues.len() == 0,
            r.view().instructions.len() == 0,
            r.view().receipts_used == Map::<ReceiptKey, bool>::empty(),
            r.view().filtering == Set::<Ticker>::empty(),
            r.view().allowed == Set::<AllowKey>::empty(),
            r.view().tokens == Map::<Ticker, IdentityId>::empty(),
            r.view().ledger.holdings == Map::<crate::portfolio::HoldingKey, crate::portfolio::Holding>::empty(),
            r.view().ledger.nfts == Map::<crate::portfolio::NftKey, crate::portfolio::NftHolding>::empty(),
            r.view().ledger.limits == Map::<Ticker, Balance>::empty(),
            r.view().scheduled == Map::<InstructionId, BlockNumber>::empty(),
            r.view().custodians == Map::<PortfolioId, IdentityId>::empty(),
            r.view().events.len() == 0,
    {
        let r = Settlement {
            config,
            block,
            now,
            venues: Vec::new(),
            instructions: Vec::new(),
            receipts_used: Table::new(),
            filtering: Table::new(),
            allowed: Table::new(),
            tokens: Table::new(),
            ledger: Ledger::new(),
            scheduled: Table::new(),
            custodians: Table::new(),
            events: Vec::new(),
        };
        assert(r.view().venues =~= Seq::<VenueView>::empty());
        assert(r.view().instructions =~= Seq::<InstructionView>::empty());
        assert(r.view().filtering =~= Set::<Ticker>::empty());
        assert(r.view().allowed =~= Set::<AllowKey>::empty());
        r
    }

    /// The current block.
    pub fn block_number(&self) -> (r: BlockNumber)
        ensures
            r == self.view().block,
    {
        self.block
    }

    /// The ledger of balances, locks and non-fungible tokens.
    pub fn ledger(&self) -> (r: &Ledger)
        ensures
            r@ == self.view().ledger,
            self.wf() ==> r.wf(),
    {
        &self.ledger
    }

    /// The events so far.
    pub fn events(&self) -> (r: &Vec<Event>)
        ensures
            r@ == self.view().events,
    {
        &self.events
    }

    /// Credits `amount` of `t` to portfolio `p`.
    pub fn deposit(&mut self, p: PortfolioId, t: Ticker, amount: Balance) -> (r: bool)
        requires
            old(self).wf(),
        ensures
            final(self).wf(),
            r == (crate::portfolio::holding_of(old(self).view().ledger, p, t).total + amount <= u128::MAX),
            r ==> final(self).view() == (SettlementView {
                ledger: crate::portfolio::with_holding(
                    old(self).view().ledger,
                    p,
                    t,
                    crate::portfolio::Holding {
                        total: (crate::portfolio::holding_of(old(self).view().ledger, p, t).total
                            + amount) as u128,
                        ..crate::portfolio::holding_of(old(self).view().ledger, p, t)
                    },
                ),
                ..old(self).view()
            }),
            !r ==> final(self).view() == old(self).view(),
    {
        self.ledger.deposit(p, t, amount)
    }
}

impl InstructionRecord {
    closed spec fn rec_wf(&self) -> bool {
        &&& self.affirmations.wf()
        &&& self.leg_status@.len() == self.legs@.len()
        &&& self.legs@.len() <= u64::MAX
        &&& (self.status is Pending || self.status is Failed) <==> self.details is Some
        &&& counts_pending(self.affirmations.view(), self.affirms_pending)
    }
}

/// The parties of `m` that have not affirmed.
pub open spec fn pending_parties(m: Map<PortfolioId, AffirmationStatus>) -> Set<PortfolioId> {
    Set::new(|p: PortfolioId| m.contains_key(p) && m[p] == AffirmationStatus::Pending)
}

/// `n` counts the parties of `m` that have not affirmed, and `m` is finite.
pub open spec fn counts_pending(m: Map<PortfolioId, AffirmationStatus>, n: u64) -> bool {
    &&& m.dom().finite()
    &&& m.dom().len() <= u64::MAX
    &&& n == pending_parties(m).len()
}

/// Setting each of `ps` from `from` to `to` changes the count of pending parties by `|ps|`.
pub proof fn lemma_set_statuses_count(
    m: Map<PortfolioId, AffirmationStatus>,
    ps: Set<PortfolioId>,
    from: AffirmationStatus,
    to: AffirmationStatus,
)
    requires
        m.dom().finite(),
        ps.finite(),
        forall|p: PortfolioId| #[trigger] ps.contains(p) ==> m.contains_key(p) && m[p] == from,
        from != to,
        from == AffirmationStatus::Pending || to == AffirmationStatus::Pending,
    ensures
        ({
            let m2 = m.union_prefer_right(Map::new(|p: PortfolioId| ps.contains(p), |p: PortfolioId| to));
            &&& m2.dom() == m.dom()
            &&& pending_parties(m).finite()
            &&& pending_parties(m2).len() <= m.dom().len()
            &&& ps.len() <= m.dom().len()
            &&& from == AffirmationStatus::Pending ==> ps.len() <= pending_parties(m).len()
                && pending_parties(m2).len() == pending_parties(m).len() - ps.len()
            &&& to == AffirmationStatus::Pending ==> pending_parties(m2).len() == pending_parties(m).len() + ps.len()
        }),
{
    let m2 = m.union_prefer_right(Map::new(|p: PortfolioId| ps.contains(p), |p: PortfolioId| to));
    let pm = pending_parties(m);
    assert(m2.dom() =~= m.dom());
    vstd::set_lib::lemma_len_subset(pending_parties(m2), m2.dom());
    vstd::set_lib::lemma_len_subset(pm, m.dom());
    vstd::set_lib::lemma_len_subset(ps, m.dom());
    if from == AffirmationStatus::Pending {
        assert(pending_parties(m2) =~= pm.difference(ps));
        vstd::set_lib::lemma_len_subset(ps, pm);
        assert(pm.difference(ps).disjoint(ps));
        assert(pm.difference(ps) + ps =~= pm);
        vstd::set_lib::lemma_len_subset(pm.difference(ps), pm);
        vstd::set_lib::lemma_set_disjoint_lens(pm.difference(ps), ps);
    } else {
        assert(pending_parties(m2) =~= pm + ps);
        assert(pm.disjoint(ps));
        vstd::set_lib::lemma_set_disjoint_lens(pm, ps);
    }
}

/// Portfolios that pass the portfolio check all had the expected affirmation status.
pub proof fn lemma_portfolios_checked(
    s: SettlementView,
    id: InstructionId,
    ps: Seq<PortfolioId>,
    did: IdentityId,
    expected: AffirmationStatus,
)
    requires
        portfolios_error(s, id, ps, did, expected) is None,
    ensures
        forall|p: PortfolioId| #[trigger] ps.contains(p) ==> affirmation_of(s, id, p) == expected,
    decreases ps.len(),
{
    if ps.len() > 0 {
        lemma_portfolios_checked(s, id, ps.drop_last(), did, expected);
        assert forall|p: PortfolioId| #[trigger] ps.contains(p) implies affirmation_of(s, id, p) == expected by {
            let j = choose|j: int| 0 <= j < ps.len() && ps[j] == p;
            if j < ps.len() - 1 {
                assert(ps.drop_last()[j] == p);
                assert(ps.drop_last().contains(p));
            } else {
                assert(p == ps.last());
            }
        }
    }
}

/// The distinct portfolios of a list are as many as its deduplicated form.
pub proof fn lemma_dedup_len(ps: Seq<PortfolioId>)
    ensures
        ps.to_set().finite(),
        ps.to_set().len() == dedup(ps).len(),
{
    lemma_dedup(ps);
    dedup(ps).unique_seq_to_set();
    vstd::seq_lib::seq_to_set_is_finite(ps);
}


/// Whether `did` acts for the on-chain asset `t`.
pub open spec fn is_agent(s: SettlementView, t: Ticker, did: IdentityId) -> bool {
    s.tokens.contains_key(t) && s.tokens[t] == did
}

impl Settlement {
    fn venue_for_management(&self, id: VenueId, did: IdentityId) -> (r: Result<(), SettlementError>)
        ensures
            r == venue_check(self.view(), id, did),
    {
        if id.0 == 0 || id.0 > self.venues.len() as u64 {
            return Err(SettlementError::InvalidVenue);
        }
        if self.venues[(id.0 - 1) as usize].info.creator != did {
            return Err(SettlementError::Unauthorized);
        }
        Ok(())
    }

    /// Registers the on-chain asset `t`, for which `did` acts; fails where it exists.
    pub fn create_asset(&mut self, did: IdentityId, t: Ticker) -> (r: Result<(), SettlementError>)
        requires
            old(self).wf(),
        ensures
            final(self).wf(),
            r is Ok <==> !old(self).view().tokens.contains_key(t),
            r is Ok ==> final(self).view() == (SettlementView {
                tokens: old(self).view().tokens.insert(t, did),
                ..old(self).view()
            }),
            r is Err ==> r == Err::<(), SettlementError>(SettlementError::Unauthorized) && final(self).view() == old(self).view(),
    {
        if self.tokens.contains(&t) {
            return Err(SettlementError::Unauthorized);
        }
        self.tokens.insert(t, did);
        Ok(())
    }

    /// Creates the non-fungible token `id` of `t` in portfolio `p`; fails where it exists.
    pub fn mint_nft(&mut self, p: PortfolioId, t: Ticker, id: u64) -> (r: bool)
        requires
            old(self).wf(),
        ensures
            final(self).wf(),
            r == !old(self).view().ledger.nfts.contains_key(crate::portfolio::NftKey { ticker: t, id }),
            r ==> final(self).view() == (SettlementView {
                ledger: crate::portfolio::with_nft(
                    old(self).view().ledger,
                    t,
                    id,
                    crate::portfolio::NftHolding { owner: p, locked: false },
                ),
                ..old(self).view()
            }),
            !r ==> final(self).view() == old(self).view(),
    {
        self.ledger.mint_nft(p, t, id)
    }

    /// Sets the most that one portfolio may hold of `t`.
    pub fn set_holding_limit(&mut self, t: Ticker, max: Balance)
        requires
            old(self).wf(),
        ensures
            final(self).wf(),
            final(self).view() == (SettlementView {
                ledger: LedgerView {
                    limits: old(self).view().ledger.limits.insert(t, max),
                    ..old(self).view().ledger
                },
                ..old(self).view()
            }),
    {
        self.ledger.set_holding_limit(t, max);
    }

    /// Registers a new venue created by `did`, with its details, receipt signers and type.
    pub fn create_venue(
        &mut self,
        did: IdentityId,
        details: VenueDetails,
        signers: Vec<AccountId>,
        typ: VenueType,
    ) -> (r: Result<VenueId, SettlementError>)
        requires
            old(self).wf(),
        ensures
            final(self).wf(),
            r is Err ==> final(self).view() == old(self).view(),
            details.0@.len() > old(self).view().config.max_details_len ==> r == Err::<
                VenueId,
                SettlementError,
            >(SettlementError::DetailsTooLong),
            details.0@.len() <= old(self).view().config.max_details_len
                && old(self).view().venues.len() < u64::MAX ==> r is Ok,
            r is Ok ==> {
                &&& r.unwrap().0 == old(self).view().venues.len() + 1
                &&& final(self).view() == (SettlementView {
                    venues: old(self).view().venues.push(
                        VenueView {
                            info: Venue { creator: did, venue_type: typ },
                            details: details.0@,
                            signers: signers@.to_set(),
                        },
                    ),
                    events: old(self).view().events.push(Event::VenueCreated(did, r.unwrap())),
                    ..old(self).view()
                })
            },
    {
        if details.0.len() as u64 > self.config.max_details_len {
            return Err(SettlementError::DetailsTooLong);
        }
        if self.venues.len() as u64 >= u64::MAX {
            return Err(SettlementError::CounterOverflow);
        }
        let id = VenueId(self.venues.len() as u64 + 1);
        let mut table: Table<AccountId, ()> = Table::new();
        let mut i: usize = 0;
        while i < signers.len()
            invariant
                i <= signers@.len(),
                table.wf(),
                table.view().dom() == signers@.subrange(0, i as int).to_set(),
            decreases signers@.len() - i,
        {
            table.insert(signers[i], ());
            proof {
                assert(signers@.subrange(0, i + 1) =~= signers@.subrange(0, i as int).push(signers@[i as int]));
                signers@.subrange(0, i as int).lemma_push_to_set_commute(signers@[i as int]);
            }
            i = i + 1;
        }
        assert(signers@.subrange(0, signers@.len() as int) =~= signers@);
        let ghost old_view = self.view();
        self.venues.push(VenueRecord { info: Venue { creator: did, venue_type: typ }, details, signers: table });
        self.events.push(Event::VenueCreated(did, id));
        assert(self.view().venues =~= old_view.venues.push(
            VenueView {
                info: Venue { creator: did, venue_type: typ },
                details: self.venues@[self.venues@.len() - 1].details.0@,
                signers: signers@.to_set(),
            },
        ));
        Ok(id)
    }
}


impl Settlement {
    /// Replaces the details of venue `id`; only its creator may.
    pub fn update_venue_details(&mut self, did: IdentityId, id: VenueId, details: VenueDetails) -> (r: Result<(), SettlementError>)
        requires
            old(self).wf(),
        ensures
            final(self).wf(),
            r == (if details.0@.len() > old(self).view().config.max_details_len {
                Err(SettlementError::DetailsTooLong)
            } else {
                venue_check(old(self).view(), id, did)
            }),
            r is Err ==> final(self).view() == old(self).view(),
            r is Ok ==> final(self).view() == (SettlementView {
                venues: old(self).view().venues.update(
                    id.0 - 1,
                    VenueView { details: details.0@, ..venue_of(old(self).view(), id) },
                ),
                events: old(self).view().events.push(Event::VenueDetailsUpdated(did, id)),
                ..old(self).view()
            }),
    {
        if details.0.len() as u64 > self.config.max_details_len {
            return Err(SettlementError::DetailsTooLong);
        }
        let check = self.venue_for_management(id, did);
        if let Err(e) = check {
            return Err(e);
        }
        let ghost old_view = self.view();
        let ghost d = details.0@;
        let n = self.venues.len();
        let i = (id.0 - 1) as usize;
        let rec = &mut self.venues[i];
        rec.details = details;
        assert(self.view().venues =~= old_view.venues.update(
            id.0 - 1,
            VenueView { details: d, ..venue_of(old_view, id) },
        ));
        self.events.push(Event::VenueDetailsUpdated(did, id));
        Ok(())
    }

    /// Changes the type of venue `id`; only its creator may.
    pub fn update_venue_type(&mut self, did: IdentityId, id: VenueId, typ: VenueType) -> (r: Result<(), SettlementError>)
        requires
            old(self).wf(),
        ensures
            final(self).wf(),
            r == venue_check(old(self).view(), id, did),
            r is Err ==> final(self).view() == old(self).view(),
            r is Ok ==> final(self).view() == (SettlementView {
                venues: old(self).view().venues.update(
                    id.0 - 1,
                    VenueView {
                        info: Venue { venue_type: typ, ..venue_of(old(self).view(), id).info },
                        ..venue_of(old(self).view(), id)
                    },
                ),
                events: old(self).view().events.push(Event::VenueTypeUpdated(did, id, typ)),
                ..old(self).view()
            }),
    {
        let check = self.venue_for_management(id, did);
        if let Err(e) = check {
            return Err(e);
        }
        let ghost old_view = self.view();
        let n = self.venues.len();
        let i = (id.0 - 1) as usize;
        let rec = &mut self.venues[i];
        rec.info.venue_type = typ;
        assert(self.view().venues =~= old_view.venues.update(
            id.0 - 1,
            VenueView {
                info: Venue { venue_type: typ, ..venue_of(old_view, id).info },
                ..venue_of(old_view, id)
            },
        ));
        self.events.push(Event::VenueTypeUpdated(did, id, typ));
        Ok(())
    }

    /// Adds (`add_signers`) or removes receipt signers of venue `id`; only its creator may.
    /// Adding a signer that is there, or removing one that is not, fails and changes nothing.
    pub fn update_venue_signers(
        &mut self,
        did: IdentityId,
        id: VenueId,
        signers: Vec<AccountId>,
        add_signers: bool,
    ) -> (r: Result<(), SettlementError>)
        requires
            old(self).wf(),
        ensures
            final(self).wf(),
            r is Err ==> final(self).view() == old(self).view(),
            venue_check(old(self).view(), id, did) is Err ==> r == venue_check(old(self).view(), id, did),
            venue_check(old(self).view(), id, did) is Ok ==> {
                let old_signers = venue_of(old(self).view(), id).signers;
                if add_signers {
                    if exists|i: int| 0 <= i < signers@.len() && old_signers.contains(#[trigger] signers@[i]) {
                        r == Err::<(), SettlementError>(SettlementError::SignerAlreadyExists)
                    } else {
                        r is Ok && final(self).view() == (SettlementView {
                            venues: old(self).view().venues.update(
                                id.0 - 1,
                                VenueView { signers: old_signers + signers@.to_set(), ..venue_of(old(self).view(), id) },
                            ),
                            events: old(self).view().events.push(Event::VenueSignersUpdated(did, id, true)),
                            ..old(self).view()
                        })
                    }
                } else {
                    if exists|i: int| 0 <= i < signers@.len() && !old_signers.contains(#[trigger] signers@[i]) {
                        r == Err::<(), SettlementError>(SettlementError::SignerDoesNotExist)
                    } else {
                        r is Ok && final(self).view() == (SettlementView {
                            venues: old(self).view().venues.update(
                                id.0 - 1,
                                VenueView { signers: old_signers - signers@.to_set(), ..venue_of(old(self).view(), id) },
                            ),
                            events: old(self).view().events.push(Event::VenueSignersUpdated(did, id, false)),
                            ..old(self).view()
                        })
                    }
                }
            },
    {
        let check = self.venue_for_management(id, did);
        if let Err(e) = check {
            return Err(e);
        }
        let ghost old_view = self.view();
        let n = self.venues.len();
        let vi = (id.0 - 1) as usize;
        let ghost old_signers = venue_of(old_view, id).signers;
        let mut i: usize = 0;
        while i < signers.len()
            invariant
                self.view() == old_view,
                old_view == old(self).view(),
                venue_check(old_view, id, did) is Ok,
                self.wf(),
                vi == id.0 - 1,
                vi < self.venues@.len(),
                old_signers == self.venues@[vi as int].signers.view().dom(),
                i <= signers@.len(),
                add_signers ==> forall|j: int| 0 <= j < i ==> !old_signers.contains(#[trigger] signers@[j]),
                !add_signers ==> forall|j: int| 0 <= j < i ==> old_signers.contains(#[trigger] signers@[j]),
            decreases signers@.len() - i,
        {
            let present = self.venues[vi].signers.contains(&signers[i]);
            if add_signers && present {
                return Err(SettlementError::SignerAlreadyExists);
            }
            if !add_signers && !present {
                return Err(SettlementError::SignerDoesNotExist);
            }
            i = i + 1;
        }
        let mut k: usize = 0;
        while k < signers.len()
            invariant
                self.wf(),
                vi == id.0 - 1,
                vi < self.venues@.len(),
                self.venues@.len() == old_view.venues.len(),
                k <= signers@.len(),
                forall|j: int| 0 <= j < self.venues@.len() && j != vi ==> #[trigger] self.venues@[j] == old(self).venues@[j],
                self.venues@[vi as int].info == old(self).venues@[vi as int].info,
                self.venues@[vi as int].details == old(self).venues@[vi as int].details,
                self.venues@[vi as int].signers.view().dom() == (if add_signers {
                    old_signers + signers@.subrange(0, k as int).to_set()
                } else {
                    old_signers - signers@.subrange(0, k as int).to_set()
                }),
                self.config == old(self).config,
                self.block == old(self).block,
                self.now == old(self).now,
                self.instructions == old(self).instructions,
                self.receipts_used == old(self).receipts_used,
                self.filtering == old(self).filtering,
                self.allowed == old(self).allowed,
                self.tokens == old(self).tokens,
                self.ledger == old(self).ledger,
                self.scheduled == old(self).scheduled,
                self.custodians == old(self).custodians,
                self.events == old(self).events,
            decreases signers@.len() - k,
        {
            let s = signers[k];
            let rec = &mut self.venues[vi];
            if add_signers {
                rec.signers.insert(s, ());
            } else {
                rec.signers.remove(&s);
            }
            proof {
                assert(signers@.subrange(0, k + 1) =~= signers@.subrange(0, k as int).push(s));
                signers@.subrange(0, k as int).lemma_push_to_set_commute(s);
                assert(self.venues@[vi as int].signers.view().dom() =~= (if add_signers {
                    old_signers + signers@.subrange(0, k + 1).to_set()
                } else {
                    old_signers - signers@.subrange(0, k + 1).to_set()
                }));
            }
            k = k + 1;
        }
        assert(signers@.subrange(0, signers@.len() as int) =~= signers@);
        let ghost ns = if add_signers {
            old_signers + signers@.to_set()
        } else {
            old_signers - signers@.to_set()
        };
        assert(self.view().venues =~= old_view.venues.update(
            id.0 - 1,
            VenueView { signers: ns, ..venue_of(old_view, id) },
        ));
        self.events.push(Event::VenueSignersUpdated(did, id, add_signers));
        Ok(())
    }

    /// Enables or disables venue filtering for the asset `t`; only its agent may.
    pub fn set_venue_filtering(&mut self, did: IdentityId, t: Ticker, enabled: bool) -> (r: Result<(), SettlementError>)
        requires
            old(self).wf(),
        ensures
            final(self).wf(),
            r is Ok <==> is_agent(old(self).view(), t, did),
            r is Err ==> r == Err::<(), SettlementError>(SettlementError::Unauthorized) && final(self).view() == old(self).view(),
            r is Ok ==> final(self).view() == (SettlementView {
                filtering: if enabled {
                    old(self).view().filtering.insert(t)
                } else {
                    old(self).view().filtering.remove(t)
                },
                events: old(self).view().events.push(Event::VenueFiltering(did, t, enabled)),
                ..old(self).view()
            }),
    {
        let check = self.ensure_agent(did, t);
        if let Err(e) = check {
            return Err(e);
        }
        let ghost old_view = self.view();
        if enabled {
            self.filtering.insert(t, ());
        } else {
            self.filtering.remove(&t);
        }
        assert(self.view().filtering =~= (if enabled {
            old_view.filtering.insert(t)
        } else {
            old_view.filtering.remove(t)
        }));
        self.events.push(Event::VenueFiltering(did, t, enabled));
        Ok(())
    }

    fn ensure_agent(&self, did: IdentityId, t: Ticker) -> (r: Result<(), SettlementError>)
        requires
            self.wf(),
        ensures
            r is Ok <==> is_agent(self.view(), t, did),
            r is Err ==> r == Err::<(), SettlementError>(SettlementError::Unauthorized),
    {
        match self.tokens.get(&t) {
            Some(a) => if a == did {
                Ok(())
            } else {
                Err(SettlementError::Unauthorized)
            },
            None => Err(SettlementError::Unauthorized),
        }
    }

    /// Puts `venues` on (`allow`) or takes them off the allow-list of asset `t`; only its
    /// agent may.
    pub fn update_allowed_venues(&mut self, did: IdentityId, t: Ticker, venues: &Vec<VenueId>, allow: bool) -> (r: Result<(), SettlementError>)
        requires
            old(self).wf(),
        ensures
            final(self).wf(),
            r is Ok <==> is_agent(old(self).view(), t, did),
            r is Err ==> r == Err::<(), SettlementError>(SettlementError::Unauthorized) && final(self).view() == old(self).view(),
            r is Ok ==> final(self).view() == (SettlementView {
                allowed: if allow {
                    old(self).view().allowed + venues@.map_values(|v: VenueId| AllowKey { ticker: t, venue: v }).to_set()
                } else {
                    old(self).view().allowed - venues@.map_values(|v: VenueId| AllowKey { ticker: t, venue: v }).to_set()
                },
                ..old(self).view()
            }),
    {
        let check = self.ensure_agent(did, t);
        if let Err(e) = check {
            return Err(e);
        }
        let ghost old_view = self.view();
        let ghost keys = venues@.map_values(|v: VenueId| AllowKey { ticker: t, venue: v });
        assert(keys.subrange(0, 0).to_set() =~= Set::<AllowKey>::empty());
        assert(old_view.allowed + Set::<AllowKey>::empty() =~= old_view.allowed);
        assert(old_view.allowed - Set::<AllowKey>::empty() =~= old_view.allowed);
        let mut i: usize = 0;
        while i < venues.len()
            invariant
                self.wf(),
                i <= venues@.len(),
                keys == venues@.map_values(|v: VenueId| AllowKey { ticker: t, venue: v }),
                self.view() == (SettlementView {
                    allowed: if allow {
                        old_view.allowed + keys.subrange(0, i as int).to_set()
                    } else {
                        old_view.allowed - keys.subrange(0, i as int).to_set()
                    },
                    ..old_view
                }),
            decreases venues@.len() - i,
        {
            let k = AllowKey { ticker: t, venue: venues[i] };
            if allow {
                self.allowed.insert(k, ());
            } else {
                self.allowed.remove(&k);
            }
            proof {
                assert(keys[i as int] == k);
                assert(keys.subrange(0, i + 1) =~= keys.subrange(0, i as int).push(k));
                keys.subrange(0, i as int).lemma_push_to_set_commute(k);
                assert(self.view().allowed =~= (if allow {
                    old_view.allowed + keys.subrange(0, i + 1).to_set()
                } else {
                    old_view.allowed - keys.subrange(0, i + 1).to_set()
                }));
            }
            i = i + 1;
        }
        assert(keys.subrange(0, venues@.len() as int) =~= keys);
        Ok(())
    }

    /// Allows `venues` to settle asset `t`.
    pub fn allow_venues(&mut self, did: IdentityId, t: Ticker, venues: Vec<VenueId>) -> (r: Result<(), SettlementError>)
        requires
            old(self).wf(),
        ensures
            final(self).wf(),
            r is Ok <==> is_agent(old(self).view(), t, did),
            r is Err ==> final(self).view() == old(self).view(),
            r is Ok ==> final(self).view() == (SettlementView {
                allowed: old(self).view().allowed + venues@.map_values(|v: VenueId| AllowKey { ticker: t, venue: v }).to_set(),
                events: old(self).view().events.push(Event::VenuesAllowed(did, t)),
                ..old(self).view()
            }),
    {
        let r = self.update_allowed_venues(did, t, &venues, true);
        if r.is_ok() {
            self.events.push(Event::VenuesAllowed(did, t));
        }
        r
    }

    /// Takes `venues` off the allow-list of asset `t`.
    pub fn disallow_venues(&mut self, did: IdentityId, t: Ticker, venues: Vec<VenueId>) -> (r: Result<(), SettlementError>)
        requires
            old(self).wf(),
        ensures
            final(self).wf(),
            r is Ok <==> is_agent(old(self).view(), t, did),
            r is Err ==> final(self).view() == old(self).view(),
            r is Ok ==> final(self).view() == (SettlementView {
                allowed: old(self).view().allowed - venues@.map_values(|v: VenueId| AllowKey { ticker: t, venue: v }).to_set(),
                events: old(self).view().events.push(Event::VenuesBlocked(did, t)),
                ..old(self).view()
            }),
    {
        let r = self.update_allowed_venues(did, t, &venues, false);
        if r.is_ok() {
            self.events.push(Event::VenuesBlocked(did, t));
        }
        r
    }

    /// The signer of receipt `uid` marks it valid (not used) or invalid (used).
    pub fn change_receipt_validity(&mut self, signer: AccountId, uid: u64, validity: bool)
        requires
            old(self).wf(),
        ensures
            final(self).wf(),
            final(self).view() == (SettlementView {
                receipts_used: old(self).view().receipts_used.insert(ReceiptKey { signer, uid }, !validity),
                events: old(self).view().events.push(Event::ReceiptValidityChanged(signer, uid, validity)),
                ..old(self).view()
            }),
    {
        self.receipts_used.insert(ReceiptKey { signer, uid }, !validity);
        self.events.push(Event::ReceiptValidityChanged(signer, uid, validity));
    }
}


/// The number of fungible legs.
pub open spec fn fungible_count(legs: Seq<LegView>) -> nat
    decreases legs.len(),
{
    if legs.len() == 0 {
        0
    } else {
        fungible_count(legs.drop_last()) + if legs.last().asset.is_fungible() {
            1nat
        } else {
            0nat
        }
    }
}

/// The number of non-fungible tokens that the legs move.
pub open spec fn nft_count(legs: Seq<LegView>) -> nat
    decreases legs.len(),
{
    if legs.len() == 0 {
        0
    } else {
        nft_count(legs.drop_last()) + match legs.last().asset {
            AssetView::Fungible { .. } => 0nat,
            AssetView::NonFungible { ids, .. } => ids.len(),
        }
    }
}

/// What is wrong with one leg of an instruction of venue `v`, if anything.
pub open spec fn leg_error(s: SettlementView, v: VenueId, l: LegView) -> Option<SettlementError> {
    if l.from == l.to {
        Some(SettlementError::SameSenderReceiver)
    } else {
        match l.asset {
            AssetView::Fungible { ticker, amount } => if amount == 0 {
                Some(SettlementError::ZeroAmount)
            } else if !venue_may_move(s, ticker, v) {
                Some(SettlementError::UnauthorizedVenue)
            } else {
                None
            },
            AssetView::NonFungible { ticker, ids } => if ids.len() > s.config.max_nfts_per_leg {
                Some(SettlementError::MaxNumberOfNFTsPerLegExceeded)
            } else if !venue_may_move(s, ticker, v) {
                Some(SettlementError::UnauthorizedVenue)
            } else if !ids.no_duplicates() {
                Some(SettlementError::DuplicateNFT)
            } else {
                None
            },
        }
    }
}

/// The error of the first invalid leg, if any.
pub open spec fn legs_error(s: SettlementView, v: VenueId, legs: Seq<LegView>) -> Option<SettlementError>
    decreases legs.len(),
{
    if legs.len() == 0 {
        None
    } else {
        match legs_error(s, v, legs.drop_last()) {
            Some(e) => Some(e),
            None => leg_error(s, v, legs.last()),
        }
    }
}

/// Why the legs cannot form an instruction of venue `v`, if they can't.
pub open spec fn legs_check(s: SettlementView, v: VenueId, legs: Seq<LegView>) -> Result<(), SettlementError> {
    match legs_error(s, v, legs) {
        Some(e) => Err(e),
        None => if nft_count(legs) > s.config.max_nfts {
            Err(SettlementError::MaxNumberOfNFTsExceeded)
        } else if fungible_count(legs) > s.config.max_fungible_legs {
            Err(SettlementError::InstructionHasTooManyLegs)
        } else {
            Ok(())
        },
    }
}

/// Why `did` cannot add such an instruction, if it can't.
pub open spec fn add_check(
    s: SettlementView,
    did: IdentityId,
    v: VenueId,
    st: SettlementType,
    trade_date: Option<Moment>,
    value_date: Option<Moment>,
    legs: Seq<LegView>,
) -> Result<(), SettlementError> {
    if (st matches SettlementType::SettleOnBlock(b) && b <= s.block) {
        Err(SettlementError::SettleOnPastBlock)
    } else if trade_date is Some && value_date is Some && value_date.unwrap() < trade_date.unwrap() {
        Err(SettlementError::InstructionDatesInvalid)
    } else if venue_check(s, v, did) is Err {
        venue_check(s, v, did)
    } else if legs_check(s, v, legs) is Err {
        legs_check(s, v, legs)
    } else if s.instructions.len() >= u64::MAX {
        Err(SettlementError::CounterOverflow)
    } else {
        Ok(())
    }
}

/// Whether `p` sends or receives in one of the legs.
pub open spec fn is_party(legs: Seq<LegView>, p: PortfolioId) -> bool {
    exists|i: int| 0 <= i < legs.len() && (#[trigger] legs[i].from == p || legs[i].to == p)
}

/// Requests execution of `id` at block `at`. A name already taken is reported, not an error.
pub open spec fn schedule(s: SettlementView, id: InstructionId, at: BlockNumber) -> SettlementView {
    if s.scheduled.contains_key(id) {
        SettlementView { events: s.events.push(Event::SchedulingFailed(id)), ..s }
    } else {
        SettlementView { scheduled: s.scheduled.insert(id, at), ..s }
    }
}

/// A new instruction, as `add_instruction` stores it.
pub open spec fn new_instruction(
    s: SettlementView,
    v: VenueId,
    st: SettlementType,
    trade_date: Option<Moment>,
    value_date: Option<Moment>,
    legs: Seq<LegView>,
    memo: Option<InstructionMemo>,
    affirmations: Map<PortfolioId, AffirmationStatus>,
) -> InstructionView {
    InstructionView {
        details: Some(
            Instruction {
                instruction_id: InstructionId((s.instructions.len() + 1) as u64),
                venue_id: v,
                settlement_type: st,
                created_at: Some(s.now),
                trade_date,
                value_date,
            },
        ),
        status: InstructionStatus::Pending,
        legs,
        leg_status: Seq::new(legs.len(), |i: int| LegStatus::PendingTokenLock),
        affirmations,
        affirms_pending: affirmations.dom().len() as u64,
        memo,
    }
}

/// The state after adding an instruction: stored, announced and, for a settlement block,
/// scheduled.
pub open spec fn added(
    s: SettlementView,
    did: IdentityId,
    v: VenueId,
    st: SettlementType,
    i: InstructionView,
) -> SettlementView {
    let id = InstructionId((s.instructions.len() + 1) as u64);
    let s1 = SettlementView {
        instructions: s.instructions.push(i),
        events: s.events.push(Event::InstructionCreated(did, v, id)),
        ..s
    };
    match st {
        SettlementType::SettleOnBlock(b) => schedule(s1, id, b),
        _ => s1,
    }
}

/// Counts the fungible and non-fungible transfers of legs: how many fungible legs, and how
/// many tokens the others move.
pub fn get_transfer_by_asset(legs: &Vec<LegV2>) -> (r: (u32, u32))
    requires
        fungible_count(legs@.map_values(|l: LegV2| l@)) <= u32::MAX,
        nft_count(legs@.map_values(|l: LegV2| l@)) <= u32::MAX,
    ensures
        r.0 == fungible_count(legs@.map_values(|l: LegV2| l@)),
        r.1 == nft_count(legs@.map_values(|l: LegV2| l@)),
{
    let ghost lv = legs@.map_values(|l: LegV2| l@);
    let mut fungible: u32 = 0;
    let mut nfts: u32 = 0;
    let mut i: usize = 0;
    while i < legs.len()
        invariant
            i <= legs@.len(),
            lv == legs@.map_values(|l: LegV2| l@),
            fungible_count(lv) <= u32::MAX,
            nft_count(lv) <= u32::MAX,
            fungible == fungible_count(lv.subrange(0, i as int)),
            nfts == nft_count(lv.subrange(0, i as int)),
        decreases legs@.len() - i,
    {
        proof {
            assert(lv.subrange(0, i + 1).drop_last() =~= lv.subrange(0, i as int));
            lemma_counts_monotone(lv, i + 1);
        }
        match &legs[i].asset {
            LegAsset::Fungible { .. } => {
                fungible = fungible + 1;
            },
            LegAsset::NonFungible(n) => {
                nfts = nfts + n.ids.len() as u32;
            },
        }
        i = i + 1;
    }
    assert(lv.subrange(0, legs@.len() as int) =~= lv);
    (fungible, nfts)
}

/// Counts grow with the prefix.
proof fn lemma_counts_monotone(legs: Seq<LegView>, n: int)
    requires
        0 <= n <= legs.len(),
    ensures
        fungible_count(legs.subrange(0, n)) <= fungible_count(legs),
        nft_count(legs.subrange(0, n)) <= nft_count(legs),
    decreases legs.len() - n,
{
    if n < legs.len() {
        lemma_counts_monotone(legs, n + 1);
        assert(legs.subrange(0, n + 1).drop_last() =~= legs.subrange(0, n));
    } else {
        assert(legs.subrange(0, n) =~= legs);
    }
}


/// Every counter-party of the legs, each waiting to affirm.
pub open spec fn seeded_affirmations(legs: Seq<LegView>) -> Map<PortfolioId, AffirmationStatus> {
    Map::new(|p: PortfolioId| is_party(legs, p), |p: PortfolioId| AffirmationStatus::Pending)
}

fn has_duplicates(ids: &Vec<u64>) -> (r: bool)
    ensures
        r == !ids@.no_duplicates(),
{
    let mut i: usize = 0;
    while i < ids.len()
        invariant
            i <= ids@.len(),
            forall|a: int, b: int| 0 <= a < b < ids@.len() && a < i ==> ids@[a] != ids@[b],
        decreases ids@.len() - i,
    {
        let mut j: usize = i + 1;
        while j < ids.len()
            invariant
                i < ids@.len(),
                i + 1 <= j <= ids@.len(),
                forall|a: int, b: int| 0 <= a < b < ids@.len() && a < i ==> ids@[a] != ids@[b],
                forall|b: int| i < b < j ==> ids@[i as int] != ids@[b],
            decreases ids@.len() - j,
        {
            if ids[i] == ids[j] {
                return true;
            }
            j = j + 1;
        }
        i = i + 1;
    }
    false
}

impl Settlement {
    fn custody(&self, p: PortfolioId, did: IdentityId) -> (r: bool)
        requires
            self.wf(),
        ensures
            r == has_custody(self.view(), p, did),
    {
        match self.custodians.get(&p) {
            Some(c) => c == did,
            None => p.did == did,
        }
    }

    /// The custodian `did` of portfolio `p` hands its custody to `custodian`; fails, changing
    /// nothing, where `did` is not the custodian.
    pub fn set_custodian(&mut self, did: IdentityId, p: PortfolioId, custodian: IdentityId) -> (r: Result<(), SettlementError>)
        requires
            old(self).wf(),
        ensures
            final(self).wf(),
            r is Ok <==> has_custody(old(self).view(), p, did),
            r is Err ==> r == Err::<(), SettlementError>(SettlementError::Unauthorized) && final(self).view() == old(self).view(),
            r is Ok ==> final(self).view() == (SettlementView {
                custodians: old(self).view().custodians.insert(p, custodian),
                ..old(self).view()
            }),
    {
        if !self.custody(p, did) {
            return Err(SettlementError::Unauthorized);
        }
        self.custodians.insert(p, custodian);
        Ok(())
    }

    fn venue_may_move(&self, t: Ticker, v: VenueId) -> (r: bool)
        requires
            self.wf(),
        ensures
            r == venue_may_move(self.view(), t, v),
    {
        !self.filtering.contains(&t) || self.allowed.contains(&AllowKey { ticker: t, venue: v })
    }

    /// Checks the legs of a new instruction of venue `v`; on success returns its
    /// counter-parties, each waiting to affirm, and its fungible and non-fungible transfers.
    fn ensure_valid_legs(&self, legs: &Vec<LegV2>, v: VenueId) -> (r: Result<
        (Table<PortfolioId, AffirmationStatus>, TransferData),
        SettlementError,
    >)
        requires
            self.wf(),
        ensures
            r is Err <==> legs_check(self.view(), v, legs@.map_values(|l: LegV2| l@)) is Err,
            r is Err ==> Err::<(), SettlementError>(r->Err_0) == legs_check(self.view(), v, legs@.map_values(|l: LegV2| l@)),
            r is Ok ==> (r->Ok_0).0.wf() && (r->Ok_0).0.view() == seeded_affirmations(legs@.map_values(|l: LegV2| l@))
                && (r->Ok_0).1.fungible == fungible_count(legs@.map_values(|l: LegV2| l@))
                && (r->Ok_0).1.non_fungible == nft_count(legs@.map_values(|l: LegV2| l@)),
    {
        let ghost s = self.view();
        let ghost lv = legs@.map_values(|l: LegV2| l@);
        let mut parties: Table<PortfolioId, AffirmationStatus> = Table::new();
        let mut fungible: u64 = 0;
        let mut nfts: u64 = 0;
        let mut i: usize = 0;
        while i < legs.len()
            invariant
                self.wf(),
                s == self.view(),
                lv == legs@.map_values(|l: LegV2| l@),
                i <= legs@.len(),
                legs_error(s, v, lv.subrange(0, i as int)) is None,
                fungible == fungible_count(lv.subrange(0, i as int)),
                nfts as int == if nft_count(lv.subrange(0, i as int)) <= u64::MAX {
                    nft_count(lv.subrange(0, i as int)) as int
                } else {
                    u64::MAX as int
                },
                fungible <= i,
                parties.wf(),
                forall|p: PortfolioId| #[trigger] parties.view().contains_key(p) <==> is_party(lv.subrange(0, i as int), p),
                forall|p: PortfolioId| #[trigger] parties.view().contains_key(p) ==> parties.view()[p] == AffirmationStatus::Pending,
            decreases legs@.len() - i,
        {
            let leg = &legs[i];
            let ghost pre = lv.subrange(0, i as int);
            let ghost post = lv.subrange(0, i + 1);
            assert(post.drop_last() =~= pre);
            assert(post.last() == leg@);
            if leg.from == leg.to {
                proof { lemma_legs_error_extends(s, v, lv, i as int); }
                return Err(SettlementError::SameSenderReceiver);
            }
            match &leg.asset {
                LegAsset::Fungible { ticker, amount } => {
                    if *amount == 0 {
                        proof { lemma_legs_error_extends(s, v, lv, i as int); }
                        return Err(SettlementError::ZeroAmount);
                    }
                    if !self.venue_may_move(*ticker, v) {
                        proof { lemma_legs_error_extends(s, v, lv, i as int); }
                        return Err(SettlementError::UnauthorizedVenue);
                    }
                    fungible = fungible + 1;
                },
                LegAsset::NonFungible(n) => {
                    if n.ids.len() as u64 > self.config.max_nfts_per_leg as u64 {
                        proof { lemma_legs_error_extends(s, v, lv, i as int); }
                        return Err(SettlementError::MaxNumberOfNFTsPerLegExceeded);
                    }
                    if !self.venue_may_move(n.ticker, v) {
                        proof { lemma_legs_error_extends(s, v, lv, i as int); }
                        return Err(SettlementError::UnauthorizedVenue);
                    }
                    if has_duplicates(&n.ids) {
                        proof { lemma_legs_error_extends(s, v, lv, i as int); }
                        return Err(SettlementError::DuplicateNFT);
                    }
                    let len = n.ids.len() as u64;
                    nfts = if nfts <= u64::MAX - len {
                        nfts + len
                    } else {
                        u64::MAX
                    };
                },
            }
            parties.insert(leg.from, AffirmationStatus::Pending);
            parties.insert(leg.to, AffirmationStatus::Pending);
            proof {
                assert forall|p: PortfolioId| #[trigger] parties.view().contains_key(p) <==> is_party(post, p) by {
                    if is_party(pre, p) {
                        let j = choose|j: int| 0 <= j < pre.len() && (#[trigger] pre[j].from == p || pre[j].to == p);
                        assert(post[j] == pre[j]);
                    }
                    if is_party(post, p) {
                        let j = choose|j: int| 0 <= j < post.len() && (#[trigger] post[j].from == p || post[j].to == p);
                        if j < i {
                            assert(post[j] == pre[j]);
                        }
                    }
                    if p == leg.from || p == leg.to {
                        assert(post[i as int] == leg@);
                    }
                }
            }
            i = i + 1;
        }
        assert(lv.subrange(0, legs@.len() as int) =~= lv);
        if nfts > self.config.max_nfts as u64 {
            return Err(SettlementError::MaxNumberOfNFTsExceeded);
        }
        if fungible > self.config.max_fungible_legs as u64 {
            return Err(SettlementError::InstructionHasTooManyLegs);
        }
        assert(parties.view() =~= seeded_affirmations(lv));
        Ok((parties, TransferData { fungible: fungible as u32, non_fungible: nfts as u32 }))
    }

    fn schedule_instruction(&mut self, id: InstructionId, at: BlockNumber)
        requires
            old(self).wf(),
        ensures
            final(self).wf(),
            final(self).view() == schedule(old(self).view(), id, at),
    {
        if self.scheduled.contains(&id) {
            self.events.push(Event::SchedulingFailed(id));
        } else {
            self.scheduled.insert(id, at);
        }
    }
}

/// An error of one leg is the error of every longer prefix that has no earlier error.
proof fn lemma_legs_error_extends(s: SettlementView, v: VenueId, legs: Seq<LegView>, i: int)
    requires
        0 <= i < legs.len(),
        legs_error(s, v, legs.subrange(0, i)) is None,
        leg_error(s, v, legs[i]) is Some,
    ensures
        legs_check(s, v, legs) == Err::<(), SettlementError>(leg_error(s, v, legs[i]).unwrap()),
{
    lemma_legs_error_stays(s, v, legs, i + 1);
    assert(legs.subrange(0, i + 1).drop_last() =~= legs.subrange(0, i));
}

proof fn lemma_legs_error_stays(s: SettlementView, v: VenueId, legs: Seq<LegView>, n: int)
    requires
        0 <= n <= legs.len(),
        legs_error(s, v, legs.subrange(0, n)) is Some,
    ensures
        legs_error(s, v, legs) == legs_error(s, v, legs.subrange(0, n)),
    decreases legs.len() - n,
{
    if n < legs.len() {
        assert(legs.subrange(0, n + 1).drop_last() =~= legs.subrange(0, n));
        lemma_legs_error_stays(s, v, legs, n + 1);
    } else {
        assert(legs.subrange(0, n) =~= legs);
    }
}


impl Settlement {
    /// Adds an instruction of venue `venue_id`, made by the venue's creator `did`, with its
    /// settlement timing, optional dates, legs and memo. Leg ids are the legs' positions.
    /// Every counter-party starts with a pending affirmation; an instruction that settles on
    /// a block is scheduled for it. On any error nothing changes.
    pub fn base_add_instruction(
        &mut self,
        did: IdentityId,
        venue_id: VenueId,
        settlement_type: SettlementType,
        trade_date: Option<Moment>,
        value_date: Option<Moment>,
        legs: Vec<LegV2>,
        memo: Option<InstructionMemo>,
    ) -> (r: Result<InstructionId, SettlementError>)
        requires
            old(self).wf(),
        ensures
            final(self).wf(),
            ({
                let s = old(self).view();
                let lv = legs@.map_values(|l: LegV2| l@);
                let chk = add_check(s, did, venue_id, settlement_type, trade_date, value_date, lv);
                &&& r is Err <==> chk is Err
                &&& r is Err ==> Err::<(), SettlementError>(r->Err_0) == chk && final(self).view() == s
                &&& r is Ok ==> r->Ok_0 == InstructionId((s.instructions.len() + 1) as u64)
                    && final(self).view() == added(
                    s,
                    did,
                    venue_id,
                    settlement_type,
                    new_instruction(
                        s,
                        venue_id,
                        settlement_type,
                        trade_date,
                        value_date,
                        lv,
                        memo,
                        seeded_affirmations(lv),
                    ),
                )
            }),
    {
        let ghost s = self.view();
        let ghost lv = legs@.map_values(|l: LegV2| l@);
        if let SettlementType::SettleOnBlock(b) = settlement_type {
            if b <= self.block {
                return Err(SettlementError::SettleOnPastBlock);
            }
        }
        if let (Some(t), Some(v)) = (trade_date, value_date) {
            if v < t {
                return Err(SettlementError::InstructionDatesInvalid);
            }
        }
        let check = self.venue_for_management(venue_id, did);
        if let Err(e) = check {
            return Err(e);
        }
        let parties = match self.ensure_valid_legs(&legs, venue_id) {
            Ok((p, _)) => p,
            Err(e) => {
                return Err(e);
            },
        };
        if self.instructions.len() as u64 >= u64::MAX {
            return Err(SettlementError::CounterOverflow);
        }
        let id = InstructionId(self.instructions.len() as u64 + 1);
        let n_parties = parties.keys().len() as u64;
        let mut leg_status: Vec<LegStatus> = Vec::new();
        let mut i: usize = 0;
        while i < legs.len()
            invariant
                i <= legs@.len(),
                leg_status@ == Seq::new(i as nat, |j: int| LegStatus::PendingTokenLock),
            decreases legs@.len() - i,
        {
            leg_status.push(LegStatus::PendingTokenLock);
            i = i + 1;
            assert(leg_status@ =~= Seq::new(i as nat, |j: int| LegStatus::PendingTokenLock));
        }
        let details = Instruction {
            instruction_id: id,
            venue_id,
            settlement_type,
            created_at: Some(self.now),
            trade_date,
            value_date,
        };
        proof {
            parties.lemma_dom_finite();
            assert(pending_parties(parties.view()) =~= parties.view().dom());
        }
        let rec = InstructionRecord {
            details: Some(details),
            status: InstructionStatus::Pending,
            legs,
            leg_status,
            affirmations: parties,
            affirms_pending: n_parties,
            memo,
        };
        self.instructions.push(rec);
        self.events.push(Event::InstructionCreated(did, venue_id, id));
        let ghost i_view = new_instruction(s, venue_id, settlement_type, trade_date, value_date, lv, memo, seeded_affirmations(lv));
        assert(self.view().instructions =~= s.instructions.push(i_view));
        if let SettlementType::SettleOnBlock(b) = settlement_type {
            self.schedule_instruction(id, b);
        }
        Ok(id)
    }

    /// Adds an instruction with legacy (fungible) legs and no memo.
    pub fn add_instruction(
        &mut self,
        did: IdentityId,
        venue_id: VenueId,
        settlement_type: SettlementType,
        trade_date: Option<Moment>,
        value_date: Option<Moment>,
        legs: Vec<Leg>,
    ) -> (r: Result<InstructionId, SettlementError>)
        requires
            old(self).wf(),
        ensures
            final(self).wf(),
            ({
                let s = old(self).view();
                let lv = legacy_views(legs@);
                let chk = add_check(s, did, venue_id, settlement_type, trade_date, value_date, lv);
                &&& r is Err <==> chk is Err
                &&& r is Err ==> Err::<(), SettlementError>(r->Err_0) == chk && final(self).view() == s
                &&& r is Ok ==> r->Ok_0 == InstructionId((s.instructions.len() + 1) as u64)
                    && final(self).view() == added(
                    s,
                    did,
                    venue_id,
                    settlement_type,
                    new_instruction(s, venue_id, settlement_type, trade_date, value_date, lv, None, seeded_affirmations(lv)),
                )
            }),
    {
        self.add_instruction_with_memo(did, venue_id, settlement_type, trade_date, value_date, legs, None)
    }

    /// Adds an instruction with legacy (fungible) legs and a memo.
    pub fn add_instruction_with_memo(
        &mut self,
        did: IdentityId,
        venue_id: VenueId,
        settlement_type: SettlementType,
        trade_date: Option<Moment>,
        value_date: Option<Moment>,
        legs: Vec<Leg>,
        memo: Option<InstructionMemo>,
    ) -> (r: Result<InstructionId, SettlementError>)
        requires
            old(self).wf(),
        ensures
            final(self).wf(),
            ({
                let s = old(self).view();
                let lv = legacy_views(legs@);
                let chk = add_check(s, did, venue_id, settlement_type, trade_date, value_date, lv);
                &&& r is Err <==> chk is Err
                &&& r is Err ==> Err::<(), SettlementError>(r->Err_0) == chk && final(self).view() == s
                &&& r is Ok ==> r->Ok_0 == InstructionId((s.instructions.len() + 1) as u64)
                    && final(self).view() == added(
                    s,
                    did,
                    venue_id,
                    settlement_type,
                    new_instruction(s, venue_id, settlement_type, trade_date, value_date, lv, memo, seeded_affirmations(lv)),
                )
            }),
    {
        let v2 = legs_to_v2(&legs);
        proof {
            lemma_legacy_views(legs@, v2@);
        }
        self.base_add_instruction(did, venue_id, settlement_type, trade_date, value_date, v2, memo)
    }

    /// Adds an instruction with unified legs and a memo.
    pub fn add_instruction_with_memo_v2(
        &mut self,
        did: IdentityId,
        venue_id: VenueId,
        settlement_type: SettlementType,
        trade_date: Option<Moment>,
        value_date: Option<Moment>,
        legs: Vec<LegV2>,
        memo: Option<InstructionMemo>,
    ) -> (r: Result<InstructionId, SettlementError>)
        requires
            old(self).wf(),
        ensures
            final(self).wf(),
            ({
                let s = old(self).view();
                let lv = legs@.map_values(|l: LegV2| l@);
                let chk = add_check(s, did, venue_id, settlement_type, trade_date, value_date, lv);
                &&& r is Err <==> chk is Err
                &&& r is Err ==> Err::<(), SettlementError>(r->Err_0) == chk && final(self).view() == s
                &&& r is Ok ==> r->Ok_0 == InstructionId((s.instructions.len() + 1) as u64)
                    && final(self).view() == added(
                    s,
                    did,
                    venue_id,
                    settlement_type,
                    new_instruction(s, venue_id, settlement_type, trade_date, value_date, lv, memo, seeded_affirmations(lv)),
                )
            }),
    {
        self.base_add_instruction(did, venue_id, settlement_type, trade_date, value_date, legs, memo)
    }
}

/// Legacy legs seen in the unified form.
pub open spec fn legacy_views(legs: Seq<Leg>) -> Seq<LegView> {
    legs.map_values(
        |l: Leg|
            LegView {
                from: l.from,
                to: l.to,
                asset: AssetView::Fungible { ticker: l.asset, amount: l.amount },
            },
    )
}

proof fn lemma_legacy_views(legs: Seq<Leg>, v2: Seq<LegV2>)
    requires
        v2.len() == legs.len(),
        forall|i: int| 0 <= i < legs.len() ==> legacy_of(#[trigger] v2[i]@) == Some(legs[i]),
        forall|i: int| 0 <= i < legs.len() ==> (#[trigger] v2[i]@).asset.is_fungible(),
    ensures
        v2.map_values(|l: LegV2| l@) == legacy_views(legs),
{
    assert forall|i: int| 0 <= i < legs.len() implies v2.map_values(|l: LegV2| l@)[i] == legacy_views(legs)[i] by {
        assert(legacy_of(v2[i]@) == Some(legs[i]));
        assert(v2[i]@.asset.is_fungible());
    }
    assert(v2.map_values(|l: LegV2| l@) =~= legacy_views(legs));
}


/// The distinct elements of `s`, in order of first occurrence.
pub open spec fn dedup(s: Seq<PortfolioId>) -> Seq<PortfolioId>
    decreases s.len(),
{
    if s.len() == 0 {
        s
    } else {
        let d = dedup(s.drop_last());
        if d.contains(s.last()) {
            d
        } else {
            d.push(s.last())
        }
    }
}

/// Whether instruction `id` may be affirmed (`is_execute` false) or executed now.
pub open spec fn validity_check(s: SettlementView, id: InstructionId, is_execute: bool) -> Result<(), SettlementError> {
    if status_of(s, id) == InstructionStatus::Unknown {
        Err(SettlementError::UnknownInstruction)
    } else {
        match instr(s, id).details {
            Some(d) => match d.settlement_type {
                SettlementType::SettleOnBlock(b) => if is_execute && b > s.block {
                    Err(SettlementError::InstructionSettleBlockNotReached)
                } else if !is_execute && b <= s.block {
                    Err(SettlementError::InstructionSettleBlockPassed)
                } else {
                    Ok(())
                },
                SettlementType::SettleManual(b) => if is_execute && b > s.block {
                    Err(SettlementError::InstructionSettleBlockNotReached)
                } else {
                    Ok(())
                },
                SettlementType::SettleOnAffirmation => Ok(()),
            },
            None => Ok(()),
        }
    }
}

/// The affirmation status of `p` on instruction `id`.
pub open spec fn affirmation_of(s: SettlementView, id: InstructionId, p: PortfolioId) -> AffirmationStatus {
    if has_instruction(s, id) && instr(s, id).affirmations.contains_key(p) {
        instr(s, id).affirmations[p]
    } else {
        AffirmationStatus::Unknown
    }
}

/// The first portfolio, in order, that `did` may not act for or whose affirmation is not
/// `expected`.
pub open spec fn portfolios_error(
    s: SettlementView,
    id: InstructionId,
    ps: Seq<PortfolioId>,
    did: IdentityId,
    expected: AffirmationStatus,
) -> Option<SettlementError>
    decreases ps.len(),
{
    if ps.len() == 0 {
        None
    } else {
        match portfolios_error(s, id, ps.drop_last(), did, expected) {
            Some(e) => Some(e),
            None => if !has_custody(s, ps.last(), did) {
                Some(SettlementError::Unauthorized)
            } else if affirmation_of(s, id, ps.last()) != expected {
                Some(SettlementError::UnexpectedAffirmationStatus)
            } else {
                None
            },
        }
    }
}

pub open spec fn receipt_key(r: ReceiptDetailsView) -> ReceiptKey {
    ReceiptKey { signer: r.signer, uid: r.receipt_uid }
}

/// Whether two receipts share a signer and number.
pub open spec fn receipts_distinct(rs: Seq<ReceiptDetailsView>) -> bool {
    forall|a: int, b: int| 0 <= a < b < rs.len() ==> receipt_key(#[trigger] rs[a]) != receipt_key(#[trigger] rs[b])
}

/// What is wrong with receipt `r` presented for instruction `id` by portfolios `ps`.
pub open spec fn receipt_error(s: SettlementView, id: InstructionId, ps: Set<PortfolioId>, r: ReceiptDetailsView) -> Option<SettlementError> {
    let i = instr(s, id);
    let v = i.details.unwrap().venue_id;
    if !(i.details is Some && has_venue(s, v) && venue_of(s, v).signers.contains(r.signer)) {
        Some(SettlementError::UnauthorizedSigner)
    } else if receipt_used(s, receipt_key(r)) {
        Some(SettlementError::ReceiptAlreadyClaimed)
    } else if r.leg_id.0 >= i.legs.len() {
        Some(SettlementError::PortfolioMismatch)
    } else {
        let leg = i.legs[r.leg_id.0 as int];
        match leg.asset {
            AssetView::NonFungible { .. } => Some(SettlementError::ReceiptForNonFungibleAsset),
            AssetView::Fungible { ticker, amount } => if !ps.contains(leg.from) {
                Some(SettlementError::PortfolioMismatch)
            } else if s.tokens.contains_key(ticker) {
                Some(SettlementError::UnauthorizedVenue)
            } else if !r.signature_ok {
                Some(SettlementError::InvalidSignature)
            } else {
                None
            },
        }
    }
}

/// The error of the first invalid receipt, if any.
pub open spec fn receipts_error(s: SettlementView, id: InstructionId, ps: Set<PortfolioId>, rs: Seq<ReceiptDetailsView>) -> Option<SettlementError>
    decreases rs.len(),
{
    if rs.len() == 0 {
        None
    } else {
        match receipts_error(s, id, ps, rs.drop_last()) {
            Some(e) => Some(e),
            None => receipt_error(s, id, ps, rs.last()),
        }
    }
}

/// The legs that portfolios of `ps` send.
pub open spec fn sent_by(legs: Seq<LegView>, ps: Set<PortfolioId>) -> Seq<LegView> {
    legs.filter(|l: LegView| ps.contains(l.from))
}

/// Whether a leg that `ps` send moves more tokens than one leg may.
pub open spec fn sent_too_large(cfg: SettlementConfig, legs: Seq<LegView>, ps: Set<PortfolioId>) -> bool {
    exists|i: int|
        0 <= i < legs.len() && ps.contains(#[trigger] legs[i].from) && (match legs[i].asset {
            AssetView::NonFungible { ids, .. } => ids.len() > cfg.max_nfts_per_leg,
            AssetView::Fungible { .. } => false,
        })
}

/// Whether the caller's declared counts cover what the transfers counted in `td` need.
pub open spec fn input_cost_check(td: TransferData, fungible: u32, nfts: Option<u32>) -> Result<(), SettlementError> {
    if td.non_fungible > 0 && nfts is None {
        Err(SettlementError::DeprecatedCallOnV2Instruction)
    } else if td.non_fungible > 0 && td.non_fungible > nfts.unwrap() {
        Err(SettlementError::NumberOfTransferredNFTsUnderestimated)
    } else if td.fungible > fungible {
        Err(SettlementError::LegCountTooSmall)
    } else {
        Ok(())
    }
}

/// Whether the caller's declared counts cover the legs that `ps` send.
pub open spec fn cost_check(cfg: SettlementConfig, legs: Seq<LegView>, ps: Set<PortfolioId>, fungible: u32, nfts: Option<u32>) -> Result<(), SettlementError> {
    let sent = sent_by(legs, ps);
    if sent_too_large(cfg, legs, ps) {
        Err(SettlementError::MaxNumberOfNFTsPerLegExceeded)
    } else if nft_count(sent) > 0 && nfts is None {
        Err(SettlementError::DeprecatedCallOnV2Instruction)
    } else if nft_count(sent) > 0 && nft_count(sent) > nfts.unwrap() {
        Err(SettlementError::NumberOfTransferredNFTsUnderestimated)
    } else if fungible_count(sent) > fungible {
        Err(SettlementError::LegCountTooSmall)
    } else {
        Ok(())
    }
}

/// The first receipt presented for leg `i`.
pub open spec fn receipt_for(rs: Seq<ReceiptDetailsView>, i: int) -> Option<ReceiptDetailsView>
    decreases rs.len(),
{
    if rs.len() == 0 {
        None
    } else if rs[0].leg_id.0 == i {
        Some(rs[0])
    } else {
        receipt_for(rs.drop_first(), i)
    }
}

/// Locks, in leg order, what `ps` send in the first `n` legs, except legs a receipt covers.
pub open spec fn affirm_locks(l: LedgerView, legs: Seq<LegView>, ps: Set<PortfolioId>, rs: Seq<ReceiptDetailsView>, n: int) -> Option<LedgerView>
    decreases n,
{
    if n <= 0 {
        Some(l)
    } else {
        match affirm_locks(l, legs, ps, rs, n - 1) {
            None => None,
            Some(l1) => if ps.contains(legs[n - 1].from) && receipt_for(rs, n - 1) is None {
                lock_leg(l1, legs[n - 1])
            } else {
                Some(l1)
            },
        }
    }
}

/// The status of leg `i` once `ps` affirm with receipts `rs`.
pub open spec fn affirmed_leg_status(i: InstructionView, ps: Set<PortfolioId>, rs: Seq<ReceiptDetailsView>, k: int) -> LegStatus {
    if ps.contains(i.legs[k].from) {
        match receipt_for(rs, k) {
            Some(r) => LegStatus::ExecutionToBeSkipped(r.signer, r.receipt_uid),
            None => LegStatus::ExecutionPending,
        }
    } else {
        i.leg_status[k]
    }
}

/// Marks the first `n` receipts used.
pub open spec fn mark_used(m: Map<ReceiptKey, bool>, rs: Seq<ReceiptDetailsView>, n: int) -> Map<ReceiptKey, bool>
    decreases n,
{
    if n <= 0 {
        m
    } else {
        mark_used(m, rs, n - 1).insert(receipt_key(rs[n - 1]), true)
    }
}

/// Why `did` may not affirm instruction `id` for `portfolios` with receipts `rs`, if it can't.
pub open spec fn affirm_check(
    s: SettlementView,
    did: IdentityId,
    id: InstructionId,
    portfolios: Seq<PortfolioId>,
    rs: Seq<ReceiptDetailsView>,
    fungible: u32,
    nfts: Option<u32>,
) -> Result<(), SettlementError> {
    let ps = portfolios.to_set();
    if validity_check(s, id, false) is Err {
        validity_check(s, id, false)
    } else if !receipts_distinct(rs) {
        Err(SettlementError::ReceiptAlreadyClaimed)
    } else if portfolios_error(s, id, dedup(portfolios), did, AffirmationStatus::Pending) is Some {
        Err(portfolios_error(s, id, dedup(portfolios), did, AffirmationStatus::Pending).unwrap())
    } else if receipts_error(s, id, ps, rs) is Some {
        Err(receipts_error(s, id, ps, rs).unwrap())
    } else if cost_check(s.config, instr(s, id).legs, ps, fungible, nfts) is Err {
        cost_check(s.config, instr(s, id).legs, ps, fungible, nfts)
    } else if affirm_locks(s.ledger, instr(s, id).legs, ps, rs, instr(s, id).legs.len() as int) is None {
        Err(SettlementError::FailedToLockTokens)
    } else {
        Ok(())
    }
}

/// The state once the affirmation is recorded (before any scheduling).
pub open spec fn affirmed(
    s: SettlementView,
    did: IdentityId,
    id: InstructionId,
    portfolios: Seq<PortfolioId>,
    rs: Seq<ReceiptDetailsView>,
) -> SettlementView {
    let ps = portfolios.to_set();
    let i = instr(s, id);
    let new_i = InstructionView {
        leg_status: Seq::new(i.legs.len(), |k: int| affirmed_leg_status(i, ps, rs, k)),
        affirmations: i.affirmations.union_prefer_right(
            Map::new(|p: PortfolioId| ps.contains(p), |p: PortfolioId| AffirmationStatus::Affirmed),
        ),
        affirms_pending: if i.affirms_pending >= dedup(portfolios).len() {
            (i.affirms_pending - dedup(portfolios).len()) as u64
        } else {
            0
        },
        ..i
    };
    SettlementView {
        instructions: s.instructions.update(id.0 - 1, new_i),
        ledger: affirm_locks(s.ledger, i.legs, ps, rs, i.legs.len() as int).unwrap(),
        receipts_used: mark_used(s.receipts_used, rs, rs.len() as int),
        events: s.events + rs.map_values(|r: ReceiptDetailsView| claim_event(did, id, r))
            + dedup(portfolios).map_values(|p: PortfolioId| portfolio_event(did, id, true, p)),
        ..s
    }
}

/// Schedules instruction `id` for the next block if it settles on affirmation and waits for
/// no affirmation.
pub open spec fn maybe_schedule(s: SettlementView, id: InstructionId) -> SettlementView {
    if has_instruction(s, id) && pending_of(s, id) == 0 && instr(s, id).details is Some
        && instr(s, id).details.unwrap().settlement_type == SettlementType::SettleOnAffirmation {
        schedule(s, id, (s.block + 1) as BlockNumber)
    } else {
        s
    }
}


/// Checks the caller's declared transfer counts against the counted transfers `td`.
pub fn ensure_valid_input_cost(td: &TransferData, fungible: u32, nfts: Option<u32>) -> (r: Result<(), SettlementError>)
    ensures
        r == input_cost_check(*td, fungible, nfts),
{
    if td.non_fungible > 0 {
        match nfts {
            None => {
                return Err(SettlementError::DeprecatedCallOnV2Instruction);
            },
            Some(n) => {
                if td.non_fungible > n {
                    return Err(SettlementError::NumberOfTransferredNFTsUnderestimated);
                }
            },
        }
    }
    if td.fungible > fungible {
        return Err(SettlementError::LegCountTooSmall);
    }
    Ok(())
}

fn contains_portfolio(v: &Vec<PortfolioId>, p: PortfolioId) -> (r: bool)
    ensures
        r == v@.contains(p),
{
    let mut i: usize = 0;
    while i < v.len()
        invariant
            i <= v@.len(),
            forall|j: int| 0 <= j < i ==> v@[j] != p,
        decreases v@.len() - i,
    {
        if v[i] == p {
            return true;
        }
        i = i + 1;
    }
    false
}

/// The distinct portfolios of `v`, in order of first occurrence.
fn dedup_portfolios(v: &Vec<PortfolioId>) -> (r: Vec<PortfolioId>)
    ensures
        r@ == dedup(v@),
{
    let mut r: Vec<PortfolioId> = Vec::new();
    let mut i: usize = 0;
    while i < v.len()
        invariant
            i <= v@.len(),
            r@ == dedup(v@.subrange(0, i as int)),
        decreases v@.len() - i,
    {
        assert(v@.subrange(0, i + 1).drop_last() =~= v@.subrange(0, i as int));
        if !contains_portfolio(&r, v[i]) {
            r.push(v[i]);
        }
        i = i + 1;
    }
    assert(v@.subrange(0, v@.len() as int) =~= v@);
    r
}

pub proof fn lemma_dedup(s: Seq<PortfolioId>)
    ensures
        dedup(s).to_set() == s.to_set(),
        dedup(s).no_duplicates(),
        dedup(s).len() <= s.len(),
    decreases s.len(),
{
    if s.len() > 0 {
        lemma_dedup(s.drop_last());
        let d = dedup(s.drop_last());
        assert(s =~= s.drop_last().push(s.last()));
        s.drop_last().lemma_push_to_set_commute(s.last());
        if !d.contains(s.last()) {
            d.lemma_push_to_set_commute(s.last());
            assert forall|a: int, b: int| 0 <= a < b < d.push(s.last()).len() implies d.push(s.last())[a] != d.push(s.last())[b] by {
                if b == d.len() {
                    assert(d.push(s.last())[a] == d[a]);
                }
            }
        } else {
            assert(d.to_set() =~= d.to_set().insert(s.last()));
        }
    } else {
        assert(dedup(s).to_set() =~= s.to_set());
    }
}

impl Settlement {
    fn ensure_instruction_validity(&self, id: InstructionId, is_execute: bool) -> (r: Result<(), SettlementError>)
        ensures
            r == validity_check(self.view(), id, is_execute),
    {
        let n = self.instructions.len();
        if id.0 == 0 || id.0 > n as u64 {
            return Err(SettlementError::UnknownInstruction);
        }
        let rec = &self.instructions[(id.0 - 1) as usize];
        if rec.status == InstructionStatus::Unknown {
            return Err(SettlementError::UnknownInstruction);
        }
        match rec.details {
            Some(d) => match d.settlement_type {
                SettlementType::SettleOnBlock(b) => {
                    if is_execute && b > self.block {
                        return Err(SettlementError::InstructionSettleBlockNotReached);
                    }
                    if !is_execute && b <= self.block {
                        return Err(SettlementError::InstructionSettleBlockPassed);
                    }
                    Ok(())
                },
                SettlementType::SettleManual(b) => {
                    if is_execute && b > self.block {
                        return Err(SettlementError::InstructionSettleBlockNotReached);
                    }
                    Ok(())
                },
                SettlementType::SettleOnAffirmation => Ok(()),
            },
            None => Ok(()),
        }
    }

    fn ensure_portfolios(&self, id: InstructionId, ps: &Vec<PortfolioId>, did: IdentityId, expected: AffirmationStatus) -> (r: Option<SettlementError>)
        requires
            self.wf(),
            has_instruction(self.view(), id),
        ensures
            r == portfolios_error(self.view(), id, ps@, did, expected),
    {
        let n = self.instructions.len();
        let idx = (id.0 - 1) as usize;
        let mut i: usize = 0;
        while i < ps.len()
            invariant
                self.wf(),
                has_instruction(self.view(), id),
                idx == id.0 - 1,
                idx < self.instructions@.len(),
                i <= ps@.len(),
                portfolios_error(self.view(), id, ps@.subrange(0, i as int), did, expected) is None,
            decreases ps@.len() - i,
        {
            let p = ps[i];
            assert(ps@.subrange(0, i + 1).drop_last() =~= ps@.subrange(0, i as int));
            let ghost pre = ps@.subrange(0, i + 1);
            if !self.custody(p, did) {
                proof { lemma_portfolios_error_stays(self.view(), id, ps@, did, expected, i + 1); }
                return Some(SettlementError::Unauthorized);
            }
            let st = match self.instructions[idx].affirmations.get(&p) {
                Some(a) => a,
                None => AffirmationStatus::Unknown,
            };
            if st != expected {
                proof { lemma_portfolios_error_stays(self.view(), id, ps@, did, expected, i + 1); }
                return Some(SettlementError::UnexpectedAffirmationStatus);
            }
            i = i + 1;
        }
        assert(ps@.subrange(0, ps@.len() as int) =~= ps@);
        None
    }
}

proof fn lemma_portfolios_error_stays(
    s: SettlementView,
    id: InstructionId,
    ps: Seq<PortfolioId>,
    did: IdentityId,
    expected: AffirmationStatus,
    n: int,
)
    requires
        0 <= n <= ps.len(),
        portfolios_error(s, id, ps.subrange(0, n), did, expected) is Some,
    ensures
        portfolios_error(s, id, ps, did, expected) == portfolios_error(s, id, ps.subrange(0, n), did, expected),
    decreases ps.len() - n,
{
    if n < ps.len() {
        assert(ps.subrange(0, n + 1).drop_last() =~= ps.subrange(0, n));
        lemma_portfolios_error_stays(s, id, ps, did, expected, n + 1);
    } else {
        assert(ps.subrange(0, n) =~= ps);
    }
}


/// The presented receipts with the verdicts `ok` on their signatures; a missing verdict is a
/// failed one.
pub open spec fn receipt_views(rs: Seq<ReceiptDetails>, ok: Seq<bool>) -> Seq<ReceiptDetailsView> {
    Seq::new(rs.len(), |i: int| checked(rs[i], i < ok.len() && ok[i]))
}

pub open spec fn leg_views(legs: Seq<LegV2>) -> Seq<LegView> {
    legs.map_values(|l: LegV2| l@)
}

fn receipts_are_distinct(rs: &Vec<ReceiptDetails>, ok: &Vec<bool>) -> (r: bool)
    ensures
        r == receipts_distinct(receipt_views(rs@, ok@)),
{
    let ghost rv = receipt_views(rs@, ok@);
    let mut i: usize = 0;
    while i < rs.len()
        invariant
            i <= rs@.len(),
            rv == receipt_views(rs@, ok@),
            forall|a: int, b: int| 0 <= a < b < rs@.len() && a < i ==> receipt_key(#[trigger] rv[a]) != receipt_key(#[trigger] rv[b]),
        decreases rs@.len() - i,
    {
        let mut j: usize = i + 1;
        while j < rs.len()
            invariant
                i < rs@.len(),
                i + 1 <= j <= rs@.len(),
                rv == receipt_views(rs@, ok@),
                forall|a: int, b: int| 0 <= a < b < rs@.len() && a < i ==> receipt_key(#[trigger] rv[a]) != receipt_key(#[trigger] rv[b]),
                forall|b: int| i < b < j ==> receipt_key(rv[i as int]) != receipt_key(#[trigger] rv[b]),
            decreases rs@.len() - j,
        {
            if rs[i].signer == rs[j].signer && rs[i].receipt_uid == rs[j].receipt_uid {
                assert(receipt_key(rv[i as int]) == receipt_key(rv[j as int]));
                return false;
            }
            j = j + 1;
        }
        i = i + 1;
    }
    true
}

/// The signer and number of the first receipt presented for leg `k`.
fn find_receipt(rs: &Vec<ReceiptDetails>, ok: &Vec<bool>, k: u64) -> (r: Option<(AccountId, u64)>)
    ensures
        match receipt_for(receipt_views(rs@, ok@), k as int) {
            Some(rv) => r == Some((rv.signer, rv.receipt_uid)),
            None => r is None,
        },
{
    let ghost rv = receipt_views(rs@, ok@);
    assert(rv.subrange(0, rv.len() as int) =~= rv);
    let mut j: usize = 0;
    while j < rs.len()
        invariant
            j <= rs@.len(),
            rv == receipt_views(rs@, ok@),
            receipt_for(rv, k as int) == receipt_for(rv.subrange(j as int, rv.len() as int), k as int),
        decreases rs@.len() - j,
    {
        let ghost tail = rv.subrange(j as int, rv.len() as int);
        assert(tail[0] == rv[j as int]);
        assert(tail.drop_first() =~= rv.subrange(j + 1, rv.len() as int));
        if rs[j].leg_id.0 == k {
            return Some((rs[j].signer, rs[j].receipt_uid));
        }
        j = j + 1;
    }
    None
}

proof fn lemma_affirm_check_locks(
    s: SettlementView,
    did: IdentityId,
    id: InstructionId,
    portfolios: Seq<PortfolioId>,
    rs: Seq<ReceiptDetailsView>,
    fungible: u32,
    nfts: Option<u32>,
)
    requires
        validity_check(s, id, false) is Ok,
        receipts_distinct(rs),
        portfolios_error(s, id, dedup(portfolios), did, AffirmationStatus::Pending) is None,
        receipts_error(s, id, portfolios.to_set(), rs) is None,
        cost_check(s.config, instr(s, id).legs, portfolios.to_set(), fungible, nfts) is Ok,
        affirm_locks(s.ledger, instr(s, id).legs, portfolios.to_set(), rs, instr(s, id).legs.len() as int) is None,
    ensures
        affirm_check(s, did, id, portfolios, rs, fungible, nfts) == Err::<(), SettlementError>(SettlementError::FailedToLockTokens),
{
}

proof fn lemma_affirm_locks_none(l: LedgerView, legs: Seq<LegView>, ps: Set<PortfolioId>, rs: Seq<ReceiptDetailsView>, k: int, n: int)
    requires
        0 <= k <= n,
        affirm_locks(l, legs, ps, rs, k) is None,
    ensures
        affirm_locks(l, legs, ps, rs, n) is None,
    decreases n - k,
{
    if k < n {
        lemma_affirm_locks_none(l, legs, ps, rs, k + 1, n);
    }
}

impl Settlement {
    fn receipt_check(&self, id: InstructionId, ps: &Vec<PortfolioId>, r: &ReceiptDetails, ok: bool) -> (e: Option<SettlementError>)
        requires
            self.wf(),
            has_instruction(self.view(), id),
        ensures
            e == receipt_error(self.view(), id, ps@.to_set(), checked(*r, ok)),
    {
        let n = self.instructions.len();
        let rec = &self.instructions[(id.0 - 1) as usize];
        let v = match rec.details {
            Some(d) => d.venue_id,
            None => {
                return Some(SettlementError::UnauthorizedSigner);
            },
        };
        let nv = self.venues.len();
        if v.0 == 0 || v.0 > nv as u64 || !self.venues[(v.0 - 1) as usize].signers.contains(&r.signer) {
            return Some(SettlementError::UnauthorizedSigner);
        }
        if let Some(true) = self.receipts_used.get(&ReceiptKey { signer: r.signer, uid: r.receipt_uid }) {
            return Some(SettlementError::ReceiptAlreadyClaimed);
        }
        if r.leg_id.0 >= rec.legs.len() as u64 {
            return Some(SettlementError::PortfolioMismatch);
        }
        let leg = &rec.legs[r.leg_id.0 as usize];
        match &leg.asset {
            LegAsset::NonFungible(_) => Some(SettlementError::ReceiptForNonFungibleAsset),
            LegAsset::Fungible { ticker, amount } => {
                if !contains_portfolio(ps, leg.from) {
                    return Some(SettlementError::PortfolioMismatch);
                }
                if self.tokens.contains(ticker) {
                    return Some(SettlementError::UnauthorizedVenue);
                }
                if !ok {
                    return Some(SettlementError::InvalidSignature);
                }
                None
            },
        }
    }

    fn receipts_check(&self, id: InstructionId, ps: &Vec<PortfolioId>, rs: &Vec<ReceiptDetails>, ok: &Vec<bool>) -> (e: Option<SettlementError>)
        requires
            self.wf(),
            has_instruction(self.view(), id),
        ensures
            e == receipts_error(self.view(), id, ps@.to_set(), receipt_views(rs@, ok@)),
    {
        let ghost rv = receipt_views(rs@, ok@);
        let mut i: usize = 0;
        while i < rs.len()
            invariant
                self.wf(),
                has_instruction(self.view(), id),
                rv == receipt_views(rs@, ok@),
                i <= rs@.len(),
                receipts_error(self.view(), id, ps@.to_set(), rv.subrange(0, i as int)) is None,
            decreases rs@.len() - i,
        {
            assert(rv.subrange(0, i + 1).drop_last() =~= rv.subrange(0, i as int));
            let verdict = i < ok.len() && ok[i];
            let e = self.receipt_check(id, ps, &rs[i], verdict);
            if e.is_some() {
                proof { lemma_receipts_error_stays(self.view(), id, ps@.to_set(), rv, i + 1); }
                return e;
            }
            i = i + 1;
        }
        assert(rv.subrange(0, rs@.len() as int) =~= rv);
        None
    }

    /// Checks the caller's declared counts against the legs of `legs` that `ps` send.
    fn sent_cost_check(&self, legs: &Vec<LegV2>, ps: &Vec<PortfolioId>, fungible: u32, nfts: Option<u32>) -> (r: Result<(), SettlementError>)
        ensures
            r == cost_check(self.view().config, leg_views(legs@), ps@.to_set(), fungible, nfts),
    {
        let ghost lv = leg_views(legs@);
        let ghost pset = ps@.to_set();
        let ghost f = |l: LegView| pset.contains(l.from);
        let mut fcount: u64 = 0;
        let mut ncount: u64 = 0;
        let mut i: usize = 0;
        while i < legs.len()
            invariant
                i <= legs@.len(),
                lv == leg_views(legs@),
                pset == ps@.to_set(),
                f == (|l: LegView| pset.contains(l.from)),
                !sent_too_large(self.view().config, lv.subrange(0, i as int), pset),
                fcount == fungible_count(lv.subrange(0, i as int).filter(f)),
                fcount <= i,
                ncount as int == if nft_count(lv.subrange(0, i as int).filter(f)) <= u64::MAX {
                    nft_count(lv.subrange(0, i as int).filter(f)) as int
                } else {
                    u64::MAX as int
                },
            decreases legs@.len() - i,
        {
            let ghost pre = lv.subrange(0, i as int);
            let ghost post = lv.subrange(0, i + 1);
            assert(post.drop_last() =~= pre);
            assert(post.last() == legs@[i as int]@);
            proof {
                reveal(Seq::filter);
            }
            let leg = &legs[i];
            let sent = contains_portfolio(ps, leg.from);
            if sent {
                assert(pset.contains(leg.from));
                assert(f(leg@));
                assert(post.filter(f) == pre.filter(f).push(leg@));
                assert(pre.filter(f).push(leg@).drop_last() =~= pre.filter(f));
                match &leg.asset {
                    LegAsset::Fungible { .. } => {
                        fcount = fcount + 1;
                    },
                    LegAsset::NonFungible(n) => {
                        if n.ids.len() as u64 > self.config.max_nfts_per_leg as u64 {
                            assert(lv[i as int] == leg@);
                            assert(pset.contains(lv[i as int].from));
                            assert(lv[i as int].asset == AssetView::NonFungible { ticker: n.ticker, ids: n.ids@ });
                            assert(sent_too_large(self.view().config, lv, pset));
                            return Err(SettlementError::MaxNumberOfNFTsPerLegExceeded);
                        }
                        let len = n.ids.len() as u64;
                        ncount = if ncount <= u64::MAX - len {
                            ncount + len
                        } else {
                            u64::MAX
                        };
                    },
                }
            } else {
                assert(!f(leg@));
                assert(post.filter(f) == pre.filter(f));
            }
            assert(!sent_too_large(self.view().config, post, pset)) by {
                if sent_too_large(self.view().config, post, pset) {
                    let j = choose|j: int|
                        0 <= j < post.len() && pset.contains(#[trigger] post[j].from) && (match post[j].asset {
                            AssetView::NonFungible { ids, .. } => ids.len() > self.view().config.max_nfts_per_leg,
                            AssetView::Fungible { .. } => false,
                        });
                    if j < i {
                        assert(pre[j] == post[j]);
                    }
                }
            }
            i = i + 1;
        }
        assert(lv.subrange(0, legs@.len() as int) =~= lv);
        if ncount > 0 {
            match nfts {
                None => {
                    return Err(SettlementError::DeprecatedCallOnV2Instruction);
                },
                Some(n) => {
                    if ncount > n as u64 {
                        return Err(SettlementError::NumberOfTransferredNFTsUnderestimated);
                    }
                },
            }
        }
        if fcount > fungible as u64 {
            return Err(SettlementError::LegCountTooSmall);
        }
        Ok(())
    }
}

proof fn lemma_receipts_error_stays(s: SettlementView, id: InstructionId, ps: Set<PortfolioId>, rs: Seq<ReceiptDetailsView>, n: int)
    requires
        0 <= n <= rs.len(),
        receipts_error(s, id, ps, rs.subrange(0, n)) is Some,
    ensures
        receipts_error(s, id, ps, rs) == receipts_error(s, id, ps, rs.subrange(0, n)),
    decreases rs.len() - n,
{
    if n < rs.len() {
        assert(rs.subrange(0, n + 1).drop_last() =~= rs.subrange(0, n));
        lemma_receipts_error_stays(s, id, ps, rs, n + 1);
    } else {
        assert(rs.subrange(0, n) =~= rs);
    }
}


/// Sets the status of each of `ps` to `st`.
fn set_statuses(t: &mut Table<PortfolioId, AffirmationStatus>, ps: &Vec<PortfolioId>, st: AffirmationStatus)
    requires
        old(t).wf(),
    ensures
        final(t).wf(),
        final(t).view() == old(t).view().union_prefer_right(
            Map::new(|p: PortfolioId| ps@.contains(p), |p: PortfolioId| st),
        ),
{
    let ghost t0 = t.view();
    let mut j: usize = 0;
    while j < ps.len()
        invariant
            j <= ps@.len(),
            t.wf(),
            t.view() == t0.union_prefer_right(
                Map::new(|p: PortfolioId| ps@.subrange(0, j as int).contains(p), |p: PortfolioId| st),
            ),
        decreases ps@.len() - j,
    {
        let ghost prev = t.view();
        t.insert(ps[j], st);
        proof {
            let b = Map::new(|p: PortfolioId| ps@.subrange(0, j + 1).contains(p), |p: PortfolioId| st);
            assert forall|p: PortfolioId| ps@.subrange(0, j + 1).contains(p) <==> (ps@.subrange(0, j as int).contains(p) || p == ps@[j as int]) by {
                if ps@.subrange(0, j + 1).contains(p) {
                    let k = choose|k: int| 0 <= k < j + 1 && #[trigger] ps@.subrange(0, j + 1)[k] == p;
                    if k < j {
                        assert(ps@.subrange(0, j as int)[k] == p);
                    }
                }
                if ps@.subrange(0, j as int).contains(p) {
                    let k = choose|k: int| 0 <= k < j && #[trigger] ps@.subrange(0, j as int)[k] == p;
                    assert(ps@.subrange(0, j + 1)[k] == p);
                }
                if p == ps@[j as int] {
                    assert(ps@.subrange(0, j + 1)[j as int] == p);
                }
            }
            let a = Map::new(|p: PortfolioId| ps@.subrange(0, j as int).contains(p), |p: PortfolioId| st);
            assert(prev == t0.union_prefer_right(a));
            assert(t.view() == prev.insert(ps@[j as int], st));
            assert forall|p: PortfolioId| #[trigger] t.view().contains_key(p) == t0.union_prefer_right(b).contains_key(p) by {
                assert(b.contains_key(p) == ps@.subrange(0, j + 1).contains(p));
                assert(a.contains_key(p) == ps@.subrange(0, j as int).contains(p));
            }
            assert forall|p: PortfolioId| #[trigger] t.view().contains_key(p) implies t.view()[p] == t0.union_prefer_right(b)[p] by {
                assert(b.contains_key(p) == ps@.subrange(0, j + 1).contains(p));
                assert(a.contains_key(p) == ps@.subrange(0, j as int).contains(p));
            }
            assert(t.view() =~= t0.union_prefer_right(b));
        }
        j = j + 1;
    }
    assert(ps@.subrange(0, ps@.len() as int) =~= ps@);
    assert(t.view() =~= t0.union_prefer_right(Map::new(|p: PortfolioId| ps@.contains(p), |p: PortfolioId| st)));
}

/// Marks each receipt of `rs` used.
fn mark_receipts_used(t: &mut Table<ReceiptKey, bool>, rs: &Vec<ReceiptDetails>, ok: &Vec<bool>)
    requires
        old(t).wf(),
    ensures
        final(t).wf(),
        final(t).view() == mark_used(old(t).view(), receipt_views(rs@, ok@), rs@.len() as int),
{
    let ghost t0 = t.view();
    let ghost rv = receipt_views(rs@, ok@);
    let mut m: usize = 0;
    while m < rs.len()
        invariant
            m <= rs@.len(),
            rv == receipt_views(rs@, ok@),
            t.wf(),
            t.view() == mark_used(t0, rv, m as int),
        decreases rs@.len() - m,
    {
        let key = ReceiptKey { signer: rs[m].signer, uid: rs[m].receipt_uid };
        assert(key == receipt_key(rv[m as int]));
        t.insert(key, true);
        m = m + 1;
    }
}

fn push_events(events: &mut Vec<Event>, evs: &Vec<Event>)
    ensures
        final(events)@ == old(events)@ + evs@,
{
    let ghost e0 = events@;
    let mut e: usize = 0;
    while e < evs.len()
        invariant
            e <= evs@.len(),
            events@ == e0 + evs@.subrange(0, e as int),
        decreases evs@.len() - e,
    {
        events.push(evs[e]);
        assert(events@ =~= e0 + evs@.subrange(0, e + 1));
        e = e + 1;
    }
    assert(evs@.subrange(0, evs@.len() as int) =~= evs@);
}

/// The event of `did` claiming receipt `r` for instruction `id`.
pub open spec fn claim_event(did: IdentityId, id: InstructionId, r: ReceiptDetailsView) -> Event {
    Event::ReceiptClaimed(did, id, r.leg_id, r.receipt_uid, r.signer)
}

fn push_claim_events(events: &mut Vec<Event>, rs: &Vec<ReceiptDetails>, ok: &Vec<bool>, did: IdentityId, id: InstructionId)
    ensures
        final(events)@ == old(events)@ + receipt_views(rs@, ok@).map_values(|r: ReceiptDetailsView| claim_event(did, id, r)),
{
    let ghost e0 = events@;
    let ghost rv = receipt_views(rs@, ok@);
    let mut e: usize = 0;
    while e < rs.len()
        invariant
            e <= rs@.len(),
            rv == receipt_views(rs@, ok@),
            events@ == e0 + rv.subrange(0, e as int).map_values(|r: ReceiptDetailsView| claim_event(did, id, r)),
        decreases rs@.len() - e,
    {
        events.push(Event::ReceiptClaimed(did, id, rs[e].leg_id, rs[e].receipt_uid, rs[e].signer));
        assert(events@ =~= e0 + rv.subrange(0, e + 1).map_values(|r: ReceiptDetailsView| claim_event(did, id, r)));
        e = e + 1;
    }
    assert(rv.subrange(0, rs@.len() as int) =~= rv);
}

/// The event of `p` affirming (`affirmed`) or withdrawing from instruction `id`.
pub open spec fn portfolio_event(did: IdentityId, id: InstructionId, affirmed: bool, p: PortfolioId) -> Event {
    if affirmed {
        Event::InstructionAffirmed(did, p, id)
    } else {
        Event::AffirmationWithdrawn(did, p, id)
    }
}

fn push_portfolio_events(events: &mut Vec<Event>, ps: &Vec<PortfolioId>, did: IdentityId, id: InstructionId, affirmed: bool)
    ensures
        final(events)@ == old(events)@ + ps@.map_values(|p: PortfolioId| portfolio_event(did, id, affirmed, p)),
{
    let ghost e0 = events@;
    let mut e: usize = 0;
    while e < ps.len()
        invariant
            e <= ps@.len(),
            events@ == e0 + ps@.subrange(0, e as int).map_values(|p: PortfolioId| portfolio_event(did, id, affirmed, p)),
        decreases ps@.len() - e,
    {
        let ev = if affirmed {
            Event::InstructionAffirmed(did, ps[e], id)
        } else {
            Event::AffirmationWithdrawn(did, ps[e], id)
        };
        events.push(ev);
        assert(events@ =~= e0 + ps@.subrange(0, e + 1).map_values(|p: PortfolioId| portfolio_event(did, id, affirmed, p)));
        e = e + 1;
    }
    assert(ps@.subrange(0, ps@.len() as int) =~= ps@);
}

impl Settlement {
    /// Affirms instruction `id` for `portfolios` of `did`, settling the legs that `receipts`
    /// cover off-chain and locking what the portfolios send in the others. Returns the number
    /// of legs of the instruction. On any error nothing changes.
    fn affirm_core(
        &mut self,
        did: IdentityId,
        id: InstructionId,
        receipts: &Vec<ReceiptDetails>,
        sig_ok: &Vec<bool>,
        portfolios: &Vec<PortfolioId>,
        fungible: u32,
        nfts: Option<u32>,
    ) -> (r: Result<u32, SettlementError>)
        requires
            old(self).wf(),
        ensures
            final(self).wf(),
            ({
                let s = old(self).view();
                let rv = receipt_views(receipts@, sig_ok@);
                let chk = affirm_check(s, did, id, portfolios@, rv, fungible, nfts);
                &&& r is Err <==> chk is Err
                &&& r is Err ==> Err::<(), SettlementError>(r->Err_0) == chk && final(self).view() == s
                &&& r is Ok ==> final(self).view() == affirmed(s, did, id, portfolios@, rv)
                    && r->Ok_0 == leg_count(s, id)
            }),
    {
        let ghost s = self.view();
        let ghost rv = receipt_views(receipts@, sig_ok@);
        let ghost pset = portfolios@.to_set();
        let check = self.ensure_instruction_validity(id, false);
        if let Err(e) = check {
            return Err(e);
        }
        if !receipts_are_distinct(receipts, sig_ok) {
            return Err(SettlementError::ReceiptAlreadyClaimed);
        }
        let ps = dedup_portfolios(portfolios);
        proof {
            lemma_dedup(portfolios@);
            assert(ps@.to_set() == pset);
        }
        if let Some(e) = self.ensure_portfolios(id, &ps, did, AffirmationStatus::Pending) {
            return Err(e);
        }
        if let Some(e) = self.receipts_check(id, &ps, receipts, sig_ok) {
            return Err(e);
        }
        let n = self.instructions.len();
        let idx = (id.0 - 1) as usize;
        let ghost iv = instr(s, id);
        let cost = self.sent_cost_check(&self.instructions[idx].legs, &ps, fungible, nfts);
        if let Err(e) = cost {
            return Err(e);
        }
        let nlegs = self.instructions[idx].legs.len();
        let mut staged = self.ledger.duplicate();
        let mut new_status: Vec<LegStatus> = Vec::new();
        let mut k: usize = 0;
        while k < nlegs
            invariant
                self.wf(),
                self.view() == s,
                idx == id.0 - 1,
                idx < self.instructions@.len(),
                iv == instr(s, id),
                nlegs == iv.legs.len(),
                nlegs == iv.leg_status.len(),
                pset == ps@.to_set(),
                pset == portfolios@.to_set(),
                rv == receipt_views(receipts@, sig_ok@),
                staged.wf(),
                k <= nlegs,
                validity_check(s, id, false) is Ok,
                receipts_distinct(rv),
                portfolios_error(s, id, dedup(portfolios@), did, AffirmationStatus::Pending) is None,
                receipts_error(s, id, pset, rv) is None,
                cost_check(s.config, instr(s, id).legs, pset, fungible, nfts) is Ok,
                affirm_locks(s.ledger, iv.legs, pset, rv, k as int) == Some(staged@),
                new_status@ == Seq::new(k as nat, |j: int| affirmed_leg_status(iv, pset, rv, j)),
            decreases nlegs - k,
        {
            let leg = &self.instructions[idx].legs[k];
            assert(leg@ == iv.legs[k as int]);
            let sent = contains_portfolio(&ps, leg.from);
            let ghost prev = staged@;
            if sent {
                match find_receipt(receipts, sig_ok, k as u64) {
                    Some((signer, uid)) => {
                        new_status.push(LegStatus::ExecutionToBeSkipped(signer, uid));
                    },
                    None => {
                        if !staged.lock_leg(leg) {
                            proof {
                                lemma_affirm_locks_none(s.ledger, iv.legs, pset, rv, k + 1, nlegs as int);
                                lemma_affirm_check_locks(s, did, id, portfolios@, rv, fungible, nfts);
                            }
                            return Err(SettlementError::FailedToLockTokens);
                        }
                        new_status.push(LegStatus::ExecutionPending);
                    },
                }
            } else {
                new_status.push(self.instructions[idx].leg_status[k]);
            }
            assert(new_status@ =~= Seq::new((k + 1) as nat, |j: int| affirmed_leg_status(iv, pset, rv, j)));
            k = k + 1;
        }
        // Commit.
        let mut affs = self.instructions[idx].affirmations.duplicate();
        set_statuses(&mut affs, &ps, AffirmationStatus::Affirmed);
        assert(affs.view() =~= iv.affirmations.union_prefer_right(
            Map::new(|p: PortfolioId| pset.contains(p), |p: PortfolioId| AffirmationStatus::Affirmed),
        ));
        let old_pending = self.instructions[idx].affirms_pending;
        let dl = ps.len() as u64;
        let new_pending = if old_pending >= dl {
            old_pending - dl
        } else {
            0
        };
        mark_receipts_used(&mut self.receipts_used, receipts, sig_ok);
        push_claim_events(&mut self.events, receipts, sig_ok, did, id);
        push_portfolio_events(&mut self.events, &ps, did, id, true);
        proof {
            assert(self.instructions@[idx as int].rec_wf());
            lemma_portfolios_checked(s, id, dedup(portfolios@), did, AffirmationStatus::Pending);
            lemma_dedup(portfolios@);
            lemma_dedup_len(portfolios@);
            assert forall|p: PortfolioId| #[trigger] pset.contains(p) implies iv.affirmations.contains_key(p)
                && iv.affirmations[p] == AffirmationStatus::Pending by {
                assert(dedup(portfolios@).to_set().contains(p));
            }
            lemma_set_statuses_count(iv.affirmations, pset, AffirmationStatus::Pending, AffirmationStatus::Affirmed);
        }
        self.ledger = staged;
        let rec = &mut self.instructions[idx];
        rec.leg_status = new_status;
        rec.affirmations = affs;
        rec.affirms_pending = new_pending;
        proof {
            assert(ps@.subrange(0, ps@.len() as int) =~= ps@);
            let new_i = InstructionView {
                leg_status: Seq::new(iv.legs.len(), |k: int| affirmed_leg_status(iv, pset, rv, k)),
                affirmations: iv.affirmations.union_prefer_right(
                    Map::new(|p: PortfolioId| pset.contains(p), |p: PortfolioId| AffirmationStatus::Affirmed),
                ),
                affirms_pending: new_pending,
                ..iv
            };
            assert(self.view().instructions =~= s.instructions.update(id.0 - 1, new_i));
        }
        Ok(if nlegs as u64 <= u32::MAX as u64 { nlegs as u32 } else { u32::MAX })
    }
}


/// Releases, in leg order, what `ps` affirmed in the first `n` legs: unclaims receipts and
/// unlocks locked assets. A leg of theirs that was never affirmed is an error.
pub open spec fn withdraw_books(
    l: LedgerView,
    m: Map<ReceiptKey, bool>,
    legs: Seq<LegView>,
    st: Seq<LegStatus>,
    ps: Set<PortfolioId>,
    n: int,
) -> Result<(LedgerView, Map<ReceiptKey, bool>), SettlementError>
    decreases n,
{
    if n <= 0 {
        Ok((l, m))
    } else {
        match withdraw_books(l, m, legs, st, ps, n - 1) {
            Err(e) => Err(e),
            Ok((l1, m1)) => if ps.contains(legs[n - 1].from) {
                match st[n - 1] {
                    LegStatus::ExecutionToBeSkipped(signer, uid) => Ok((l1, m1.insert(ReceiptKey { signer, uid }, false))),
                    LegStatus::ExecutionPending => match unlock_leg(l1, legs[n - 1]) {
                        Some(l2) => Ok((l2, m1)),
                        None => Err(SettlementError::FailedToUnlockTokens),
                    },
                    LegStatus::PendingTokenLock => Err(SettlementError::InstructionNotAffirmed),
                }
            } else {
                Ok((l1, m1))
            },
        }
    }
}

/// Why `did` may not withdraw the affirmation of `portfolios` from instruction `id`.
pub open spec fn withdraw_check(
    s: SettlementView,
    did: IdentityId,
    id: InstructionId,
    portfolios: Seq<PortfolioId>,
    fungible: u32,
    nfts: Option<u32>,
) -> Result<(), SettlementError> {
    let ps = portfolios.to_set();
    let i = instr(s, id);
    if validity_check(s, id, false) is Err {
        validity_check(s, id, false)
    } else if portfolios_error(s, id, dedup(portfolios), did, AffirmationStatus::Affirmed) is Some {
        Err(portfolios_error(s, id, dedup(portfolios), did, AffirmationStatus::Affirmed).unwrap())
    } else if cost_check(s.config, i.legs, ps, fungible, nfts) is Err {
        cost_check(s.config, i.legs, ps, fungible, nfts)
    } else if withdraw_books(s.ledger, s.receipts_used, i.legs, i.leg_status, ps, i.legs.len() as int) is Err {
        Err(withdraw_books(s.ledger, s.receipts_used, i.legs, i.leg_status, ps, i.legs.len() as int)->Err_0)
    } else {
        Ok(())
    }
}

/// The state once `portfolios` withdrew their affirmation from instruction `id`.
pub open spec fn withdrawn(s: SettlementView, did: IdentityId, id: InstructionId, portfolios: Seq<PortfolioId>) -> SettlementView {
    let ps = portfolios.to_set();
    let i = instr(s, id);
    let books = withdraw_books(s.ledger, s.receipts_used, i.legs, i.leg_status, ps, i.legs.len() as int)->Ok_0;
    let d = dedup(portfolios).len();
    let new_i = InstructionView {
        leg_status: Seq::new(i.legs.len(), |k: int| if ps.contains(i.legs[k].from) {
            LegStatus::PendingTokenLock
        } else {
            i.leg_status[k]
        }),
        affirmations: i.affirmations.union_prefer_right(
            Map::new(|p: PortfolioId| ps.contains(p), |p: PortfolioId| AffirmationStatus::Pending),
        ),
        affirms_pending: if i.affirms_pending + d <= u64::MAX {
            (i.affirms_pending + d) as u64
        } else {
            u64::MAX
        },
        ..i
    };
    SettlementView {
        instructions: s.instructions.update(id.0 - 1, new_i),
        ledger: books.0,
        receipts_used: books.1,
        events: s.events + withdraw_events(id, i.legs, i.leg_status, ps, i.legs.len() as int)
            + dedup(portfolios).map_values(|p: PortfolioId| portfolio_event(did, id, false, p)),
        scheduled: if i.details is Some && i.details.unwrap().settlement_type == SettlementType::SettleOnAffirmation {
            s.scheduled.remove(id)
        } else {
            s.scheduled
        },
        ..s
    }
}

/// The unclaim events of the first `n` legs that a receipt settled, in leg order.
pub open spec fn unclaim_events(id: InstructionId, st: Seq<LegStatus>, n: int) -> Seq<Event>
    decreases n,
{
    if n <= 0 {
        Seq::empty()
    } else {
        match st[n - 1] {
            LegStatus::ExecutionToBeSkipped(signer, uid) => unclaim_events(id, st, n - 1).push(
                Event::ReceiptUnclaimed(id, LegId((n - 1) as u64), uid, signer),
            ),
            _ => unclaim_events(id, st, n - 1),
        }
    }
}

/// The unclaim events of the first `n` legs that `ps` send and a receipt settled.
pub open spec fn withdraw_events(id: InstructionId, legs: Seq<LegView>, st: Seq<LegStatus>, ps: Set<PortfolioId>, n: int) -> Seq<Event>
    decreases n,
{
    if n <= 0 {
        Seq::empty()
    } else {
        match st[n - 1] {
            LegStatus::ExecutionToBeSkipped(signer, uid) => if ps.contains(legs[n - 1].from) {
                withdraw_events(id, legs, st, ps, n - 1).push(Event::ReceiptUnclaimed(id, LegId((n - 1) as u64), uid, signer))
            } else {
                withdraw_events(id, legs, st, ps, n - 1)
            },
            _ => withdraw_events(id, legs, st, ps, n - 1),
        }
    }
}

/// Unclaims the receipts of the first `n` legs that a receipt settled.
pub open spec fn unclaim_receipts(m: Map<ReceiptKey, bool>, st: Seq<LegStatus>, n: int) -> Map<ReceiptKey, bool>
    decreases n,
{
    if n <= 0 {
        m
    } else {
        match st[n - 1] {
            LegStatus::ExecutionToBeSkipped(signer, uid) => unclaim_receipts(m, st, n - 1).insert(ReceiptKey { signer, uid }, false),
            _ => unclaim_receipts(m, st, n - 1),
        }
    }
}

/// Unlocks, in leg order, the assets of the first `n` legs that are locked; an unlock that
/// fails is skipped.
pub open spec fn release_locks(l: LedgerView, legs: Seq<LegView>, st: Seq<LegStatus>, n: int) -> LedgerView
    decreases n,
{
    if n <= 0 {
        l
    } else {
        let l1 = release_locks(l, legs, st, n - 1);
        if st[n - 1] == LegStatus::ExecutionPending {
            match unlock_leg(l1, legs[n - 1]) {
                Some(l2) => l2,
                None => l1,
            }
        } else {
            l1
        }
    }
}

/// What remains of instruction `i` once pruned with final status `st`.
pub open spec fn pruned(i: InstructionView, st: InstructionStatus) -> InstructionView {
    InstructionView {
        details: None,
        status: st,
        legs: Seq::empty(),
        leg_status: Seq::empty(),
        affirmations: Map::empty(),
        affirms_pending: 0,
        memo: i.memo,
    }
}

/// Why `did` may not reject instruction `id` as `portfolio`.
pub open spec fn reject_check(
    s: SettlementView,
    did: IdentityId,
    id: InstructionId,
    portfolio: PortfolioId,
    fungible: u32,
    nfts: Option<u32>,
) -> Result<(), SettlementError> {
    let i = instr(s, id);
    let all = sender_seq(i.legs).to_set();
    if status_of(s, id) == InstructionStatus::Unknown {
        Err(SettlementError::UnknownInstruction)
    } else if !is_party(i.legs, portfolio) {
        Err(SettlementError::CallerIsNotAParty)
    } else if cost_check(s.config, i.legs, all, fungible, nfts) is Err {
        cost_check(s.config, i.legs, all, fungible, nfts)
    } else if !has_custody(s, portfolio, did) {
        Err(SettlementError::Unauthorized)
    } else {
        Ok(())
    }
}

/// The state once instruction `id` is rejected by `did`: receipts unclaimed, locks released,
/// its execution cancelled, and the instruction pruned.
pub open spec fn rejected(s: SettlementView, did: IdentityId, id: InstructionId) -> SettlementView {
    let i = instr(s, id);
    SettlementView {
        instructions: s.instructions.update(id.0 - 1, pruned(i, InstructionStatus::Rejected(s.block))),
        receipts_used: unclaim_receipts(s.receipts_used, i.leg_status, i.leg_status.len() as int),
        ledger: release_locks(s.ledger, i.legs, i.leg_status, i.legs.len() as int),
        scheduled: s.scheduled.remove(id),
        events: (s.events + unclaim_events(id, i.leg_status, i.leg_status.len() as int)).push(Event::InstructionRejected(did, id)),
        ..s
    }
}

impl Settlement {
    fn maybe_schedule_instruction(&mut self, id: InstructionId)
        requires
            old(self).wf(),
        ensures
            final(self).wf(),
            final(self).view() == maybe_schedule(old(self).view(), id),
    {
        let n = self.instructions.len();
        if id.0 == 0 || id.0 > n as u64 {
            return;
        }
        let idx = (id.0 - 1) as usize;
        if self.instructions[idx].affirms_pending != 0 {
            return;
        }
        match self.instructions[idx].details {
            Some(d) => {
                if d.settlement_type == SettlementType::SettleOnAffirmation {
                    self.schedule_instruction(id, self.block + 1);
                }
            },
            None => {},
        }
    }

    /// The receipt that leg `leg_id` of instruction `id` would have under number `uid`.
    pub fn leg_receipt_of(&self, id: InstructionId, uid: u64, leg_id: LegId) -> (r: Option<Receipt>)
        ensures
            r == leg_receipt(self.view(), id, uid, leg_id),
    {
        let n = self.instructions.len();
        if id.0 == 0 || id.0 > n as u64 {
            return None;
        }
        let rec = &self.instructions[(id.0 - 1) as usize];
        if leg_id.0 >= rec.legs.len() as u64 {
            return None;
        }
        let leg = &rec.legs[leg_id.0 as usize];
        assert(leg@ == instr(self.view(), id).legs[leg_id.0 as int]);
        match &leg.asset {
            LegAsset::Fungible { ticker, amount } => Some(
                Receipt { receipt_uid: uid, from: leg.from, to: leg.to, asset: *ticker, amount: *amount },
            ),
            LegAsset::NonFungible(_) => None,
        }
    }

    /// The verdicts of the runtime on the signatures of `receipts` for instruction `id`: each
    /// checks the receipt's signature over the message of `leg_receipt_of` for its number and
    /// leg; false where that leg has no receipt.
    fn receipt_signatures(&self, id: InstructionId, receipts: &Vec<ReceiptDetails>) -> (r: Vec<bool>)
        ensures
            r@.len() == receipts@.len(),
            forall|i: int| 0 <= i < r@.len() && (#[trigger] leg_receipt(self.view(), id, receipts@[i].receipt_uid, receipts@[i].leg_id)) is None ==> !r@[i],
            forall|i: int| 0 <= i < r@.len() && #[trigger] r@[i] ==> receipts@[i].signature@.len() >= 65,
    {
        let mut r: Vec<bool> = Vec::new();
        let mut i: usize = 0;
        while i < receipts.len()
            invariant
                i <= receipts@.len(),
                r@.len() == i,
                forall|j: int| 0 <= j < i && (#[trigger] leg_receipt(self.view(), id, receipts@[j].receipt_uid, receipts@[j].leg_id)) is None ==> !r@[j],
                forall|j: int| 0 <= j < i && #[trigger] r@[j] ==> receipts@[j].signature@.len() >= 65,
            decreases receipts@.len() - i,
        {
            let rd = &receipts[i];
            let ok = match self.leg_receipt_of(id, rd.receipt_uid, rd.leg_id) {
                Some(receipt) => receipt.is_signed_by(&rd.signature, rd.signer),
                None => false,
            };
            r.push(ok);
            i = i + 1;
        }
        r
    }

    /// Affirms instruction `id` for `portfolios` of `did` and returns the number of its legs;
    /// `fungible` and `nfts` bound what the portfolios send.
    pub fn base_affirm_instruction(
        &mut self,
        did: IdentityId,
        id: InstructionId,
        portfolios: Vec<PortfolioId>,
        fungible: u32,
        nfts: Option<u32>,
    ) -> (r: Result<u32, SettlementError>)
        requires
            old(self).wf(),
        ensures
            final(self).wf(),
            affirm_outcome(old(self).view(), did, id, portfolios@, Seq::empty(), fungible, nfts, r, final(self).view()),
    {
        let none: Vec<ReceiptDetails> = Vec::new();
        let none_ok: Vec<bool> = Vec::new();
        assert(receipt_views(none@, none_ok@) =~= Seq::<ReceiptDetailsView>::empty());
        self.affirm_core(did, id, &none, &none_ok, &portfolios, fungible, nfts)
    }

    /// Affirms instruction `id` for `portfolios` of `did`, settling off-chain the legs that
    /// `receipts` cover, where `signatures_valid[i]` is the verdict on the signature of
    /// `receipts[i]` (a missing verdict fails); returns the number of its legs.
    pub fn affirm_with_checked_receipts(
        &mut self,
        did: IdentityId,
        id: InstructionId,
        receipts: Vec<ReceiptDetails>,
        signatures_valid: Vec<bool>,
        portfolios: Vec<PortfolioId>,
        fungible: u32,
    ) -> (r: Result<u32, SettlementError>)
        requires
            old(self).wf(),
        ensures
            final(self).wf(),
            affirm_outcome(
                old(self).view(), did, id, portfolios@, receipt_views(receipts@, signatures_valid@), fungible, None, r,
                final(self).view(),
            ),
    {
        self.affirm_core(did, id, &receipts, &signatures_valid, &portfolios, fungible, None)
    }

    /// Affirms instruction `id` for `portfolios` of `did`, settling off-chain the legs that
    /// `receipts` cover; the runtime checks each receipt's signature over the message of its
    /// leg. Returns the number of legs of the instruction. The outcome is that of
    /// `affirm_with_checked_receipts` for the verdicts the runtime gave.
    pub fn base_affirm_with_receipts(
        &mut self,
        did: IdentityId,
        id: InstructionId,
        receipts: Vec<ReceiptDetails>,
        portfolios: Vec<PortfolioId>,
        fungible: u32,
    ) -> (r: Result<u32, SettlementError>)
        requires
            old(self).wf(),
        ensures
            final(self).wf(),
            exists|ok: Seq<bool>|
                verdicts_fit(old(self).view(), id, receipts@, ok) && #[trigger] affirm_outcome(
                    old(self).view(), did, id, portfolios@, receipt_views(receipts@, ok), fungible, None, r,
                    final(self).view(),
                ),
    {
        let sig_ok = self.receipt_signatures(id, &receipts);
        let r = self.affirm_core(did, id, &receipts, &sig_ok, &portfolios, fungible, None);
        assert(affirm_outcome(
            old(self).view(), did, id, portfolios@, receipt_views(receipts@, sig_ok@), fungible, None, r, self.view(),
        ));
        r
    }

    /// Affirms, then schedules the instruction for the next block if it settles on
    /// affirmation and waits for no other affirmation.
    pub fn affirm_and_maybe_schedule_instruction(
        &mut self,
        did: IdentityId,
        id: InstructionId,
        portfolios: Vec<PortfolioId>,
        fungible: u32,
        nfts: Option<u32>,
    ) -> (r: Result<(), SettlementError>)
        requires
            old(self).wf(),
        ensures
            final(self).wf(),
            scheduled_affirm_outcome(old(self).view(), did, id, portfolios@, Seq::empty(), fungible, nfts, r, final(self).view()),
    {
        match self.base_affirm_instruction(did, id, portfolios, fungible, nfts) {
            Ok(_) => {
                self.maybe_schedule_instruction(id);
                Ok(())
            },
            Err(e) => Err(e),
        }
    }

    /// Affirms with receipts, then schedules as `affirm_and_maybe_schedule_instruction` does.
    pub fn affirm_with_receipts_and_maybe_schedule_instruction(
        &mut self,
        did: IdentityId,
        id: InstructionId,
        receipts: Vec<ReceiptDetails>,
        portfolios: Vec<PortfolioId>,
        fungible: u32,
    ) -> (r: Result<(), SettlementError>)
        requires
            old(self).wf(),
        ensures
            final(self).wf(),
            exists|ok: Seq<bool>|
                verdicts_fit(old(self).view(), id, receipts@, ok) && #[trigger] scheduled_affirm_outcome(
                    old(self).view(), did, id, portfolios@, receipt_views(receipts@, ok), fungible, None, r,
                    final(self).view(),
                ),
    {
        let sig_ok = self.receipt_signatures(id, &receipts);
        let r = match self.affirm_core(did, id, &receipts, &sig_ok, &portfolios, fungible, None) {
            Ok(_) => {
                self.maybe_schedule_instruction(id);
                Ok(())
            },
            Err(e) => Err(e),
        };
        assert(scheduled_affirm_outcome(
            old(self).view(), did, id, portfolios@, receipt_views(receipts@, sig_ok@), fungible, None, r, self.view(),
        ));
        r
    }

    /// Affirms instruction `id` (legacy form: fungible legs only, at most `max_legs_count`).
    pub fn affirm_instruction(&mut self, did: IdentityId, id: InstructionId, portfolios: Vec<PortfolioId>, max_legs_count: u32) -> (r: Result<(), SettlementError>)
        requires
            old(self).wf(),
        ensures
            final(self).wf(),
            scheduled_affirm_outcome(old(self).view(), did, id, portfolios@, Seq::empty(), max_legs_count, None, r, final(self).view()),
    {
        self.affirm_and_maybe_schedule_instruction(did, id, portfolios, max_legs_count, None)
    }

    /// Affirms instruction `id`; `fungible` and `nfts` bound what the portfolios send.
    pub fn affirm_instruction_v2(&mut self, did: IdentityId, id: InstructionId, portfolios: Vec<PortfolioId>, fungible: u32, nfts: u32) -> (r: Result<(), SettlementError>)
        requires
            old(self).wf(),
        ensures
            final(self).wf(),
            scheduled_affirm_outcome(old(self).view(), did, id, portfolios@, Seq::empty(), fungible, Some(nfts), r, final(self).view()),
    {
        self.affirm_and_maybe_schedule_instruction(did, id, portfolios, fungible, Some(nfts))
    }

    /// Affirms instruction `id` with off-chain receipts.
    pub fn affirm_with_receipts(
        &mut self,
        did: IdentityId,
        id: InstructionId,
        receipts: Vec<ReceiptDetails>,
        portfolios: Vec<PortfolioId>,
        max_legs_count: u32,
    ) -> (r: Result<(), SettlementError>)
        requires
            old(self).wf(),
        ensures
            final(self).wf(),
            exists|ok: Seq<bool>|
                verdicts_fit(old(self).view(), id, receipts@, ok) && #[trigger] scheduled_affirm_outcome(
                    old(self).view(), did, id, portfolios@, receipt_views(receipts@, ok), max_legs_count, None, r,
                    final(self).view(),
                ),
    {
        self.affirm_with_receipts_and_maybe_schedule_instruction(did, id, receipts, portfolios, max_legs_count)
    }
}

/// The receipt that leg `leg_id` of instruction `id` would have under number `uid`: none
/// where the instruction is not stored or the leg is not a fungible leg of it.
pub open spec fn leg_receipt(s: SettlementView, id: InstructionId, uid: u64, leg_id: LegId) -> Option<Receipt> {
    if has_instruction(s, id) && leg_id.0 < instr(s, id).legs.len() {
        let leg = instr(s, id).legs[leg_id.0 as int];
        match leg.asset {
            AssetView::Fungible { ticker, amount } => Some(
                Receipt { receipt_uid: uid, from: leg.from, to: leg.to, asset: ticker, amount },
            ),
            AssetView::NonFungible { .. } => None,
        }
    } else {
        None
    }
}

/// Whether `ok` can be the runtime's verdicts on the signatures of `rs` for instruction `id`:
/// one per receipt; false where the receipt's leg has none (`leg_receipt`), and true only
/// for a signature long enough to decode.
pub open spec fn verdicts_fit(s: SettlementView, id: InstructionId, rs: Seq<ReceiptDetails>, ok: Seq<bool>) -> bool {
    &&& ok.len() == rs.len()
    &&& forall|i: int| 0 <= i < rs.len() && (#[trigger] leg_receipt(s, id, rs[i].receipt_uid, rs[i].leg_id)) is None ==> !ok[i]
    &&& forall|i: int| 0 <= i < rs.len() && #[trigger] ok[i] ==> rs[i].signature@.len() >= 65
}

/// The number of legs of instruction `id`, as a `u32` (capped).
pub open spec fn leg_count(s: SettlementView, id: InstructionId) -> u32 {
    if instr(s, id).legs.len() <= u32::MAX {
        instr(s, id).legs.len() as u32
    } else {
        u32::MAX
    }
}

/// Whether `r` and `t` are the result and state of an affirmation of instruction `id`
/// from `s`: the error `affirm_check` gives, with nothing changed; or the affirmed state
/// and the number of legs.
pub open spec fn affirm_outcome(
    s: SettlementView,
    did: IdentityId,
    id: InstructionId,
    portfolios: Seq<PortfolioId>,
    rs: Seq<ReceiptDetailsView>,
    fungible: u32,
    nfts: Option<u32>,
    r: Result<u32, SettlementError>,
    t: SettlementView,
) -> bool {
    let chk = affirm_check(s, did, id, portfolios, rs, fungible, nfts);
    &&& r is Err <==> chk is Err
    &&& r is Err ==> Err::<(), SettlementError>(r->Err_0) == chk && t == s
    &&& r is Ok ==> t == affirmed(s, did, id, portfolios, rs) && r->Ok_0 == leg_count(s, id)
}

/// As `affirm_outcome`, with the instruction then scheduled when it is ready.
pub open spec fn scheduled_affirm_outcome(
    s: SettlementView,
    did: IdentityId,
    id: InstructionId,
    portfolios: Seq<PortfolioId>,
    rs: Seq<ReceiptDetailsView>,
    fungible: u32,
    nfts: Option<u32>,
    r: Result<(), SettlementError>,
    t: SettlementView,
) -> bool {
    let chk = affirm_check(s, did, id, portfolios, rs, fungible, nfts);
    &&& r == chk
    &&& r is Err ==> t == s
    &&& r is Ok ==> t == maybe_schedule(affirmed(s, did, id, portfolios, rs), id)
}


proof fn lemma_withdraw_err_stays(
    l: LedgerView,
    m: Map<ReceiptKey, bool>,
    legs: Seq<LegView>,
    st: Seq<LegStatus>,
    ps: Set<PortfolioId>,
    k: int,
    n: int,
)
    requires
        0 <= k <= n,
        withdraw_books(l, m, legs, st, ps, k) is Err,
    ensures
        withdraw_books(l, m, legs, st, ps, n) == withdraw_books(l, m, legs, st, ps, k),
    decreases n - k,
{
    if k < n {
        lemma_withdraw_err_stays(l, m, legs, st, ps, k + 1, n);
    }
}

impl Settlement {
    fn withdraw_core(
        &mut self,
        did: IdentityId,
        id: InstructionId,
        portfolios: &Vec<PortfolioId>,
        fungible: u32,
        nfts: Option<u32>,
    ) -> (r: Result<(), SettlementError>)
        requires
            old(self).wf(),
        ensures
            final(self).wf(),
            ({
                let s = old(self).view();
                let chk = withdraw_check(s, did, id, portfolios@, fungible, nfts);
                &&& r == chk
                &&& r is Err ==> final(self).view() == s
                &&& r is Ok ==> final(self).view() == withdrawn(s, did, id, portfolios@)
            }),
    {
        let ghost s = self.view();
        let ghost pset = portfolios@.to_set();
        let check = self.ensure_instruction_validity(id, false);
        if let Err(e) = check {
            return Err(e);
        }
        let ps = dedup_portfolios(portfolios);
        proof {
            lemma_dedup(portfolios@);
        }
        if let Some(e) = self.ensure_portfolios(id, &ps, did, AffirmationStatus::Affirmed) {
            return Err(e);
        }
        let n = self.instructions.len();
        let idx = (id.0 - 1) as usize;
        let ghost iv = instr(s, id);
        let cost = self.sent_cost_check(&self.instructions[idx].legs, &ps, fungible, nfts);
        if let Err(e) = cost {
            return Err(e);
        }
        let nlegs = self.instructions[idx].legs.len();
        let mut staged = self.ledger.duplicate();
        let mut receipts = self.receipts_used.duplicate();
        let mut evs: Vec<Event> = Vec::new();
        let mut new_status: Vec<LegStatus> = Vec::new();
        let mut k: usize = 0;
        while k < nlegs
            invariant
                self.wf(),
                self.view() == s,
                idx == id.0 - 1,
                idx < self.instructions@.len(),
                iv == instr(s, id),
                nlegs == iv.legs.len(),
                nlegs == iv.leg_status.len(),
                pset == ps@.to_set(),
                pset == portfolios@.to_set(),
                staged.wf(),
                receipts.wf(),
                k <= nlegs,
                validity_check(s, id, false) is Ok,
                portfolios_error(s, id, dedup(portfolios@), did, AffirmationStatus::Affirmed) is None,
                cost_check(s.config, iv.legs, pset, fungible, nfts) is Ok,
                withdraw_books(s.ledger, s.receipts_used, iv.legs, iv.leg_status, pset, k as int) == Ok::<(LedgerView, Map<ReceiptKey, bool>), SettlementError>((staged@, receipts.view())),
                evs@ == withdraw_events(id, iv.legs, iv.leg_status, pset, k as int),
                new_status@ == Seq::new(k as nat, |j: int| if pset.contains(iv.legs[j].from) {
                    LegStatus::PendingTokenLock
                } else {
                    iv.leg_status[j]
                }),
            decreases nlegs - k,
        {
            let leg = &self.instructions[idx].legs[k];
            assert(leg@ == iv.legs[k as int]);
            let st = self.instructions[idx].leg_status[k];
            if contains_portfolio(&ps, leg.from) {
                match st {
                    LegStatus::ExecutionToBeSkipped(signer, uid) => {
                        receipts.insert(ReceiptKey { signer, uid }, false);
                        evs.push(Event::ReceiptUnclaimed(id, LegId(k as u64), uid, signer));
                    },
                    LegStatus::ExecutionPending => {
                        if !staged.unlock_leg(leg) {
                            proof {
                                lemma_withdraw_err_stays(s.ledger, s.receipts_used, iv.legs, iv.leg_status, pset, k + 1, nlegs as int);
                            }
                            return Err(SettlementError::FailedToUnlockTokens);
                        }
                    },
                    LegStatus::PendingTokenLock => {
                        proof {
                            lemma_withdraw_err_stays(s.ledger, s.receipts_used, iv.legs, iv.leg_status, pset, k + 1, nlegs as int);
                        }
                        return Err(SettlementError::InstructionNotAffirmed);
                    },
                }
                new_status.push(LegStatus::PendingTokenLock);
            } else {
                new_status.push(st);
            }
            assert(new_status@ =~= Seq::new((k + 1) as nat, |j: int| if pset.contains(iv.legs[j].from) {
                LegStatus::PendingTokenLock
            } else {
                iv.leg_status[j]
            }));
            k = k + 1;
        }
        let mut affs = self.instructions[idx].affirmations.duplicate();
        set_statuses(&mut affs, &ps, AffirmationStatus::Pending);
        assert(affs.view() =~= iv.affirmations.union_prefer_right(
            Map::new(|p: PortfolioId| pset.contains(p), |p: PortfolioId| AffirmationStatus::Pending),
        ));
        let old_pending = self.instructions[idx].affirms_pending;
        let dl = ps.len() as u64;
        let new_pending = if old_pending <= u64::MAX - dl {
            old_pending + dl
        } else {
            u64::MAX
        };
        let settle_on_affirmation = match self.instructions[idx].details {
            Some(d) => d.settlement_type == SettlementType::SettleOnAffirmation,
            None => false,
        };
        push_events(&mut self.events, &evs);
        push_portfolio_events(&mut self.events, &ps, did, id, false);
        proof {
            assert(self.instructions@[idx as int].rec_wf());
            lemma_portfolios_checked(s, id, dedup(portfolios@), did, AffirmationStatus::Affirmed);
            lemma_dedup(portfolios@);
            lemma_dedup_len(portfolios@);
            assert forall|p: PortfolioId| #[trigger] pset.contains(p) implies iv.affirmations.contains_key(p)
                && iv.affirmations[p] == AffirmationStatus::Affirmed by {
                assert(dedup(portfolios@).to_set().contains(p));
            }
            lemma_set_statuses_count(iv.affirmations, pset, AffirmationStatus::Affirmed, AffirmationStatus::Pending);
        }
        self.ledger = staged;
        self.receipts_used = receipts;
        if settle_on_affirmation {
            self.scheduled.remove(&id);
        }
        let rec = &mut self.instructions[idx];
        rec.leg_status = new_status;
        rec.affirmations = affs;
        rec.affirms_pending = new_pending;
        proof {
            let new_i = InstructionView {
                leg_status: Seq::new(iv.legs.len(), |k: int| if pset.contains(iv.legs[k].from) {
                    LegStatus::PendingTokenLock
                } else {
                    iv.leg_status[k]
                }),
                affirmations: iv.affirmations.union_prefer_right(
                    Map::new(|p: PortfolioId| pset.contains(p), |p: PortfolioId| AffirmationStatus::Pending),
                ),
                affirms_pending: new_pending,
                ..iv
            };
            assert(self.view().instructions =~= s.instructions.update(id.0 - 1, new_i));
        }
        Ok(())
    }

    /// Withdraws the affirmation of `portfolios` from instruction `id` (legacy form).
    pub fn withdraw_affirmation(&mut self, did: IdentityId, id: InstructionId, portfolios: Vec<PortfolioId>, max_legs_count: u32) -> (r: Result<(), SettlementError>)
        requires
            old(self).wf(),
        ensures
            final(self).wf(),
            r == withdraw_check(old(self).view(), did, id, portfolios@, max_legs_count, None),
            r is Err ==> final(self).view() == old(self).view(),
            r is Ok ==> final(self).view() == withdrawn(old(self).view(), did, id, portfolios@),
    {
        self.withdraw_core(did, id, &portfolios, max_legs_count, None)
    }

    /// Withdraws the affirmation of `portfolios` from instruction `id`: receipts are
    /// unclaimed, locked assets unlocked, and an execution due on affirmation cancelled.
    pub fn withdraw_affirmation_v2(&mut self, did: IdentityId, id: InstructionId, portfolios: Vec<PortfolioId>, fungible: u32, nfts: u32) -> (r: Result<(), SettlementError>)
        requires
            old(self).wf(),
        ensures
            final(self).wf(),
            r == withdraw_check(old(self).view(), did, id, portfolios@, fungible, Some(nfts)),
            r is Err ==> final(self).view() == old(self).view(),
            r is Ok ==> final(self).view() == withdrawn(old(self).view(), did, id, portfolios@),
    {
        self.withdraw_core(did, id, &portfolios, fungible, Some(nfts))
    }
}


/// Transfers, in leg order, what the first `n` legs move whose assets are locked for
/// execution; the index of the first leg that fails.
pub open spec fn transfer_pending(l: LedgerView, legs: Seq<LegView>, st: Seq<LegStatus>, n: int) -> Result<LedgerView, int>
    decreases n,
{
    if n <= 0 {
        Ok(l)
    } else {
        match transfer_pending(l, legs, st, n - 1) {
            Err(k) => Err(k),
            Ok(l1) => if st[n - 1] == LegStatus::ExecutionPending {
                match transfer_leg(l1, legs[n - 1]) {
                    Some(l2) => Ok(l2),
                    None => Err(n - 1),
                }
            } else {
                Ok(l1)
            },
        }
    }
}

/// The ledger after executing instruction `i`: every lock released, then every locked leg
/// transferred in leg-id order; or the first leg whose transfer fails.
pub open spec fn execution_outcome(l: LedgerView, i: InstructionView) -> Result<LedgerView, int> {
    transfer_pending(release_locks(l, i.legs, i.leg_status, i.legs.len() as int), i.legs, i.leg_status, i.legs.len() as int)
}

/// Whether the venue of instruction `i` may no longer move one of its assets.
pub open spec fn venue_blocked(s: SettlementView, i: InstructionView) -> bool {
    exists|k: int| 0 <= k < i.legs.len() && !venue_may_move(s, (#[trigger] i.legs[k]).asset.ticker(), i.details.unwrap().venue_id)
}

/// The first of the first `n` legs whose asset venue `v` may no longer move.
pub open spec fn first_blocked(s: SettlementView, legs: Seq<LegView>, v: VenueId, n: int) -> Option<int>
    decreases n,
{
    if n <= 0 {
        None
    } else {
        match first_blocked(s, legs, v, n - 1) {
            Some(k) => Some(k),
            None => if !venue_may_move(s, legs[n - 1].asset.ticker(), v) {
                Some(n - 1)
            } else {
                None
            },
        }
    }
}

/// The asset that stops a ready instruction `id` at the venue check, if one does.
pub open spec fn blocked_ticker(s: SettlementView, id: InstructionId) -> Option<Ticker> {
    let i = instr(s, id);
    if pending_of(s, id) == 0 && status_of(s, id) == InstructionStatus::Pending
        && first_blocked(s, i.legs, i.details.unwrap().venue_id, i.legs.len() as int) is Some {
        Some(i.legs[first_blocked(s, i.legs, i.details.unwrap().venue_id, i.legs.len() as int)->Some_0].asset.ticker())
    } else {
        None
    }
}

proof fn lemma_first_blocked_none(s: SettlementView, legs: Seq<LegView>, v: VenueId, n: int)
    requires
        0 <= n <= legs.len(),
        forall|j: int| 0 <= j < n ==> venue_may_move(s, (#[trigger] legs[j]).asset.ticker(), v),
    ensures
        first_blocked(s, legs, v, n) is None,
    decreases n,
{
    if n > 0 {
        lemma_first_blocked_none(s, legs, v, n - 1);
    }
}

proof fn lemma_first_blocked_some(s: SettlementView, legs: Seq<LegView>, v: VenueId, n: int)
    requires
        first_blocked(s, legs, v, n) is Some,
    ensures
        0 <= first_blocked(s, legs, v, n)->Some_0 < n,
        !venue_may_move(s, legs[first_blocked(s, legs, v, n)->Some_0].asset.ticker(), v),
    decreases n,
{
    if n > 0 && first_blocked(s, legs, v, n - 1) is Some {
        lemma_first_blocked_some(s, legs, v, n - 1);
    }
}

proof fn lemma_first_blocked_stays(s: SettlementView, legs: Seq<LegView>, v: VenueId, k: int, n: int)
    requires
        0 <= k <= n,
        first_blocked(s, legs, v, k) is Some,
    ensures
        first_blocked(s, legs, v, n) == first_blocked(s, legs, v, k),
    decreases n - k,
{
    if k < n {
        lemma_first_blocked_stays(s, legs, v, k + 1, n);
    }
}

/// Why instruction `id` cannot be executed now, if it can't.
pub open spec fn execute_check(s: SettlementView, id: InstructionId) -> Result<(), SettlementError> {
    if pending_of(s, id) != 0 {
        Err(SettlementError::InstructionFailed)
    } else if status_of(s, id) != InstructionStatus::Pending {
        Err(SettlementError::InstructionNotPending)
    } else if venue_blocked(s, instr(s, id)) {
        Err(SettlementError::UnauthorizedVenue)
    } else if execution_outcome(s.ledger, instr(s, id)) is Err {
        Err(SettlementError::InstructionFailed)
    } else {
        Ok(())
    }
}

/// The state once instruction `id` executed: transfers committed and the instruction pruned.
pub open spec fn executed(s: SettlementView, id: InstructionId) -> SettlementView {
    SettlementView {
        ledger: execution_outcome(s.ledger, instr(s, id))->Ok_0,
        instructions: s.instructions.update(id.0 - 1, pruned(instr(s, id), InstructionStatus::Success(s.block))),
        events: s.events.push(Event::InstructionExecuted(id)),
        ..s
    }
}

/// The leg whose transfer failed, where execution got that far.
pub open spec fn failed_leg(s: SettlementView, id: InstructionId) -> Option<int> {
    if pending_of(s, id) == 0 && status_of(s, id) == InstructionStatus::Pending && !venue_blocked(s, instr(s, id))
        && execution_outcome(s.ledger, instr(s, id)) is Err {
        Some(execution_outcome(s.ledger, instr(s, id))->Err_0)
    } else {
        None
    }
}

/// The state once an execution attempt of `id` failed with `e`: the failing leg reported and
/// receipts unclaimed, and a stored instruction marked failed. No transfer stays.
pub open spec fn execution_failed(s: SettlementView, id: InstructionId, e: SettlementError) -> SettlementView {
    let i = instr(s, id);
    let s0 = match blocked_ticker(s, id) {
        Some(t) => SettlementView {
            events: s.events.push(Event::VenueUnauthorized(t, i.details.unwrap().venue_id)),
            ..s
        },
        None => s,
    };
    let s1 = match failed_leg(s, id) {
        Some(k) => SettlementView {
            receipts_used: unclaim_receipts(s.receipts_used, i.leg_status, i.leg_status.len() as int),
            events: s.events.push(Event::LegFailedExecution(id, LegId(k as u64))).push(Event::InstructionFailed(id))
                + unclaim_events(id, i.leg_status, i.leg_status.len() as int),
            ..s
        },
        None => s0,
    };
    let s2 = if has_instruction(s, id) && i.details is Some {
        SettlementView {
            instructions: s1.instructions.update(id.0 - 1, InstructionView { status: InstructionStatus::Failed, ..i }),
            ..s1
        }
    } else {
        s1
    };
    SettlementView { events: s2.events.push(Event::FailedToExecuteInstruction(id, e)), ..s2 }
}

/// The state after the scheduler runs the execution of `id`: the task is consumed, then the
/// instruction executes or is marked failed.
pub open spec fn after_scheduled_execution(s: SettlementView, id: InstructionId) -> SettlementView {
    let s0 = SettlementView { scheduled: s.scheduled.remove(id), ..s };
    match execute_check(s0, id) {
        Ok(()) => executed(s0, id),
        Err(e) => execution_failed(s0, id, e),
    }
}

/// Why `did` may not execute instruction `id` by hand now, if it can't.
pub open spec fn manual_check(
    s: SettlementView,
    did: IdentityId,
    id: InstructionId,
    legs_count: u32,
    portfolio: Option<PortfolioId>,
) -> Result<(), SettlementError> {
    let i = instr(s, id);
    if validity_check(s, id, true) is Err {
        validity_check(s, id, true)
    } else if portfolio is Some && !has_custody(s, portfolio.unwrap(), did) {
        Err(SettlementError::Unauthorized)
    } else if portfolio is Some && !is_party(i.legs, portfolio.unwrap()) {
        Err(SettlementError::CallerIsNotAParty)
    } else if portfolio is None && i.details is None {
        Err(SettlementError::InvalidVenue)
    } else if portfolio is None && venue_check(s, i.details.unwrap().venue_id, did) is Err {
        venue_check(s, i.details.unwrap().venue_id, did)
    } else if i.legs.len() > legs_count {
        Err(SettlementError::LegCountTooSmall)
    } else {
        execute_check(s, id)
    }
}

/// The state after `did` rescheduled the failed instruction `id` for the next block.
pub open spec fn rescheduled(s: SettlementView, did: IdentityId, id: InstructionId) -> SettlementView {
    let s1 = SettlementView {
        instructions: s.instructions.update(id.0 - 1, InstructionView { status: InstructionStatus::Pending, ..instr(s, id) }),
        ..s
    };
    let s2 = schedule(s1, id, (s.block + 1) as BlockNumber);
    SettlementView { events: s2.events.push(Event::InstructionRescheduled(did, id)), ..s2 }
}

proof fn lemma_transfer_err_stays(l: LedgerView, legs: Seq<LegView>, st: Seq<LegStatus>, k: int, n: int)
    requires
        0 <= k <= n,
        transfer_pending(l, legs, st, k) is Err,
    ensures
        transfer_pending(l, legs, st, n) == transfer_pending(l, legs, st, k),
    decreases n - k,
{
    if k < n {
        lemma_transfer_err_stays(l, legs, st, k + 1, n);
    }
}

impl Settlement {
    /// Computes the execution of instruction `id` on a copy of the ledger: the new ledger, or
    /// the error and, where a transfer failed, its leg.
    fn try_execute(&self, id: InstructionId) -> (r: Result<Ledger, (SettlementError, Option<u64>, Option<Ticker>)>)
        requires
            self.wf(),
        ensures
            ({
                let s = self.view();
                &&& r is Ok <==> execute_check(s, id) is Ok
                &&& r is Ok ==> r->Ok_0.wf() && r->Ok_0@ == execution_outcome(s.ledger, instr(s, id))->Ok_0
                &&& r is Err ==> Err::<(), SettlementError>((r->Err_0).0) == execute_check(s, id)
                    && match failed_leg(s, id) {
                        Some(k) => (r->Err_0).1 == Some(k as u64),
                        None => (r->Err_0).1 is None,
                    }
                    && (r->Err_0).2 == blocked_ticker(s, id)
            }),
    {
        let ghost s = self.view();
        let n = self.instructions.len();
        if id.0 == 0 || id.0 > n as u64 {
            return Err((SettlementError::InstructionNotPending, None, None));
        }
        let idx = (id.0 - 1) as usize;
        let ghost iv = instr(s, id);
        if self.instructions[idx].affirms_pending != 0 {
            return Err((SettlementError::InstructionFailed, None, None));
        }
        if self.instructions[idx].status != InstructionStatus::Pending {
            return Err((SettlementError::InstructionNotPending, None, None));
        }
        let venue = match self.instructions[idx].details {
            Some(d) => d.venue_id,
            None => {
                return Err((SettlementError::InstructionNotPending, None, None));
            },
        };
        let nlegs = self.instructions[idx].legs.len();
        let mut k: usize = 0;
        while k < nlegs
            invariant
                self.wf(),
                self.view() == s,
                idx == id.0 - 1,
                idx < self.instructions@.len(),
                iv == instr(s, id),
                nlegs == iv.legs.len(),
                iv.details is Some,
                venue == iv.details.unwrap().venue_id,
                pending_of(s, id) == 0,
                status_of(s, id) == InstructionStatus::Pending,
                k <= nlegs,
                forall|j: int| 0 <= j < k ==> venue_may_move(s, (#[trigger] iv.legs[j]).asset.ticker(), venue),
            decreases nlegs - k,
        {
            let (t, _) = self.instructions[idx].legs[k].asset.ticker_and_amount();
            assert(self.instructions@[idx as int].legs@[k as int]@ == iv.legs[k as int]);
            if !self.venue_may_move(t, venue) {
                assert(venue_blocked(s, iv));
                proof {
                    lemma_first_blocked_none(s, iv.legs, venue, k as int);
                    lemma_first_blocked_stays(s, iv.legs, venue, k + 1, nlegs as int);
                }
                return Err((SettlementError::UnauthorizedVenue, None, Some(t)));
            }
            k = k + 1;
        }
        proof {
            lemma_first_blocked_none(s, iv.legs, venue, nlegs as int);
        }
        let mut staged = self.ledger.duplicate();
        let mut k: usize = 0;
        while k < nlegs
            invariant
                self.wf(),
                self.view() == s,
                idx == id.0 - 1,
                idx < self.instructions@.len(),
                iv == instr(s, id),
                nlegs == iv.legs.len(),
                nlegs == iv.leg_status.len(),
                staged.wf(),
                k <= nlegs,
                staged@ == release_locks(s.ledger, iv.legs, iv.leg_status, k as int),
                first_blocked(s, iv.legs, venue, nlegs as int) is None,
                venue == iv.details.unwrap().venue_id,
            decreases nlegs - k,
        {
            let leg = &self.instructions[idx].legs[k];
            assert(leg@ == iv.legs[k as int]);
            if self.instructions[idx].leg_status[k] == LegStatus::ExecutionPending {
                let _ = staged.unlock_leg(leg);
            }
            k = k + 1;
        }
        let ghost released = staged@;
        let mut k: usize = 0;
        while k < nlegs
            invariant
                self.wf(),
                self.view() == s,
                idx == id.0 - 1,
                idx < self.instructions@.len(),
                iv == instr(s, id),
                nlegs == iv.legs.len(),
                nlegs == iv.leg_status.len(),
                released == release_locks(s.ledger, iv.legs, iv.leg_status, nlegs as int),
                staged.wf(),
                k <= nlegs,
                pending_of(s, id) == 0,
                status_of(s, id) == InstructionStatus::Pending,
                !venue_blocked(s, iv),
                first_blocked(s, iv.legs, venue, nlegs as int) is None,
                venue == iv.details.unwrap().venue_id,
                transfer_pending(released, iv.legs, iv.leg_status, k as int) == Ok::<LedgerView, int>(staged@),
            decreases nlegs - k,
        {
            let leg = &self.instructions[idx].legs[k];
            assert(leg@ == iv.legs[k as int]);
            if self.instructions[idx].leg_status[k] == LegStatus::ExecutionPending {
                if !staged.transfer_leg(leg) {
                    proof {
                        lemma_transfer_err_stays(released, iv.legs, iv.leg_status, k + 1, nlegs as int);
                    }
                    return Err((SettlementError::InstructionFailed, Some(k as u64), None));
                }
            }
            k = k + 1;
        }
        Ok(staged)
    }

    /// Commits an execution: the new ledger, the pruned instruction and its event.
    fn commit_execution(&mut self, id: InstructionId, ledger: Ledger)
        requires
            old(self).wf(),
            ledger.wf(),
            has_instruction(old(self).view(), id),
        ensures
            final(self).wf(),
            final(self).view() == (SettlementView {
                ledger: ledger@,
                instructions: old(self).view().instructions.update(
                    id.0 - 1,
                    pruned(instr(old(self).view(), id), InstructionStatus::Success(old(self).view().block)),
                ),
                events: old(self).view().events.push(Event::InstructionExecuted(id)),
                ..old(self).view()
            }),
    {
        self.ledger = ledger;
        self.prune(id, InstructionStatus::Success(self.block));
        self.events.push(Event::InstructionExecuted(id));
    }

    fn prune(&mut self, id: InstructionId, st: InstructionStatus)
        requires
            old(self).wf(),
            has_instruction(old(self).view(), id),
            !(st is Pending || st is Failed),
        ensures
            final(self).wf(),
            final(self).view() == (SettlementView {
                instructions: old(self).view().instructions.update(id.0 - 1, pruned(instr(old(self).view(), id), st)),
                ..old(self).view()
            }),
    {
        let ghost s = self.view();
        let n = self.instructions.len();
        let idx = (id.0 - 1) as usize;
        let rec = &mut self.instructions[idx];
        rec.details = None;
        rec.status = st;
        rec.legs = Vec::new();
        rec.leg_status = Vec::new();
        rec.affirmations = Table::new();
        rec.affirms_pending = 0;
        proof {
            let e = Map::<PortfolioId, AffirmationStatus>::empty();
            assert(e.dom() =~= Set::<PortfolioId>::empty());
            assert(pending_parties(e) =~= Set::<PortfolioId>::empty());
            assert(leg_views(self.instructions@[idx as int].legs@) =~= Seq::<LegView>::empty());
            assert(self.view().instructions =~= s.instructions.update(id.0 - 1, pruned(instr(s, id), st)));
        }
    }

    /// Unclaims the receipts of every leg of instruction `id` that a receipt settled.
    fn unclaim_instruction_receipts(&mut self, id: InstructionId)
        requires
            old(self).wf(),
            has_instruction(old(self).view(), id),
        ensures
            final(self).wf(),
            final(self).view() == (SettlementView {
                receipts_used: unclaim_receipts(
                    old(self).view().receipts_used,
                    instr(old(self).view(), id).leg_status,
                    instr(old(self).view(), id).leg_status.len() as int,
                ),
                events: old(self).view().events + unclaim_events(
                    id,
                    instr(old(self).view(), id).leg_status,
                    instr(old(self).view(), id).leg_status.len() as int,
                ),
                ..old(self).view()
            }),
    {
        let ghost s = self.view();
        let ghost iv = instr(s, id);
        let n = self.instructions.len();
        let idx = (id.0 - 1) as usize;
        let nst = self.instructions[idx].leg_status.len();
        let mut receipts = self.receipts_used.duplicate();
        let mut evs: Vec<Event> = Vec::new();
        let mut k: usize = 0;
        while k < nst
            invariant
                self.wf(),
                self.view() == s,
                idx == id.0 - 1,
                idx < self.instructions@.len(),
                iv == instr(s, id),
                nst == iv.leg_status.len(),
                receipts.wf(),
                k <= nst,
                receipts.view() == unclaim_receipts(s.receipts_used, iv.leg_status, k as int),
                evs@ == unclaim_events(id, iv.leg_status, k as int),
            decreases nst - k,
        {
            if let LegStatus::ExecutionToBeSkipped(signer, uid) = self.instructions[idx].leg_status[k] {
                receipts.insert(ReceiptKey { signer, uid }, false);
                evs.push(Event::ReceiptUnclaimed(id, LegId(k as u64), uid, signer));
            }
            k = k + 1;
        }
        self.receipts_used = receipts;
        push_events(&mut self.events, &evs);
    }

    /// Records a failed execution attempt of `id`.
    fn record_failure(&mut self, id: InstructionId, e: SettlementError, leg: Option<u64>, blocked: Option<Ticker>)
        requires
            old(self).wf(),
            blocked == blocked_ticker(old(self).view(), id),
            match failed_leg(old(self).view(), id) {
                Some(k) => leg == Some(k as u64),
                None => leg is None,
            },
        ensures
            final(self).wf(),
            final(self).view() == execution_failed(old(self).view(), id, e),
    {
        let ghost s = self.view();
        proof {
            if blocked is Some {
                let i = instr(s, id);
                lemma_first_blocked_some(s, i.legs, i.details.unwrap().venue_id, i.legs.len() as int);
                assert(venue_blocked(s, i));
                assert(self.instructions@[id.0 - 1].rec_wf());
            }
        }
        if let Some(t) = blocked {
            let n = self.instructions.len();
            let idx = (id.0 - 1) as usize;
            if let Some(d) = self.instructions[idx].details {
                self.events.push(Event::VenueUnauthorized(t, d.venue_id));
            }
        }
        if let Some(k) = leg {
            self.events.push(Event::LegFailedExecution(id, LegId(k)));
            self.events.push(Event::InstructionFailed(id));
            self.unclaim_instruction_receipts(id);
        }
        let ghost s1 = self.view();
        let n = self.instructions.len();
        if id.0 >= 1 && id.0 <= n as u64 {
            let idx = (id.0 - 1) as usize;
            if self.instructions[idx].details.is_some() {
                let rec = &mut self.instructions[idx];
                rec.status = InstructionStatus::Failed;
                assert(self.view().instructions =~= s1.instructions.update(
                    id.0 - 1,
                    InstructionView { status: InstructionStatus::Failed, ..instr(s, id) },
                ));
            }
        }
        self.events.push(Event::FailedToExecuteInstruction(id, e));
    }

    /// Runs the scheduled execution of instruction `id`: the scheduler's task is consumed;
    /// the instruction executes, or is marked failed for a later reschedule.
    pub fn execute_scheduled_instruction(&mut self, id: InstructionId)
        requires
            old(self).wf(),
        ensures
            final(self).wf(),
            final(self).view() == after_scheduled_execution(old(self).view(), id),
    {
        self.scheduled.remove(&id);
        match self.try_execute(id) {
            Ok(ledger) => {
                self.commit_execution(id, ledger);
            },
            Err((e, leg, blocked)) => {
                self.record_failure(id, e, leg, blocked);
            },
        }
    }

    /// Executes instruction `id` at the request of `did`: a party acting for `portfolio`, or,
    /// with no portfolio, the creator of the instruction's venue. On any error nothing changes.
    pub fn execute_manual_instruction(
        &mut self,
        did: IdentityId,
        id: InstructionId,
        legs_count: u32,
        portfolio: Option<PortfolioId>,
    ) -> (r: Result<(), SettlementError>)
        requires
            old(self).wf(),
        ensures
            final(self).wf(),
            r == manual_check(old(self).view(), did, id, legs_count, portfolio),
            r is Err ==> final(self).view() == old(self).view(),
            r is Ok ==> final(self).view() == (SettlementView {
                events: executed(old(self).view(), id).events.push(Event::SettlementManuallyExecuted(did, id)),
                ..executed(old(self).view(), id)
            }),
    {
        let ghost s = self.view();
        let check = self.ensure_instruction_validity(id, true);
        if let Err(e) = check {
            return Err(e);
        }
        let n = self.instructions.len();
        let idx = (id.0 - 1) as usize;
        match portfolio {
            Some(p) => {
                if !self.custody(p, did) {
                    return Err(SettlementError::Unauthorized);
                }
                if !self.is_party_of(idx, p) {
                    return Err(SettlementError::CallerIsNotAParty);
                }
            },
            None => {
                match self.instructions[idx].details {
                    Some(d) => {
                        let check = self.venue_for_management(d.venue_id, did);
                        if let Err(e) = check {
                            return Err(e);
                        }
                    },
                    None => {
                        return Err(SettlementError::InvalidVenue);
                    },
                }
            },
        }
        if self.instructions[idx].legs.len() as u64 > legs_count as u64 {
            return Err(SettlementError::LegCountTooSmall);
        }
        match self.try_execute(id) {
            Ok(ledger) => {
                self.commit_execution(id, ledger);
                self.events.push(Event::SettlementManuallyExecuted(did, id));
                Ok(())
            },
            Err((e, _, _)) => Err(e),
        }
    }

    fn is_party_of(&self, idx: usize, p: PortfolioId) -> (r: bool)
        requires
            idx < self.instructions@.len(),
        ensures
            r == is_party(self.view().instructions[idx as int].legs, p),
    {
        let ghost lv = self.view().instructions[idx as int].legs;
        let nlegs = self.instructions[idx].legs.len();
        let mut k: usize = 0;
        while k < nlegs
            invariant
                idx < self.instructions@.len(),
                lv == self.view().instructions[idx as int].legs,
                nlegs == lv.len(),
                k <= nlegs,
                forall|j: int| 0 <= j < k ==> !(#[trigger] lv[j].from == p || lv[j].to == p),
            decreases nlegs - k,
        {
            let leg = &self.instructions[idx].legs[k];
            assert(leg@ == lv[k as int]);
            if leg.from == p || leg.to == p {
                assert(lv[k as int].from == p || lv[k as int].to == p);
                assert(is_party(lv, p));
                return true;
            }
            k = k + 1;
        }
        false
    }

    /// Puts the failed instruction `id` back to pending and schedules it for the next block.
    pub fn reschedule_instruction(&mut self, did: IdentityId, id: InstructionId) -> (r: Result<(), SettlementError>)
        requires
            old(self).wf(),
        ensures
            final(self).wf(),
            r is Ok <==> status_of(old(self).view(), id) == InstructionStatus::Failed,
            r is Err ==> r == Err::<(), SettlementError>(SettlementError::InstructionNotFailed)
                && final(self).view() == old(self).view(),
            r is Ok ==> final(self).view() == rescheduled(old(self).view(), did, id),
    {
        let ghost s = self.view();
        let n = self.instructions.len();
        if id.0 == 0 || id.0 > n as u64 {
            return Err(SettlementError::InstructionNotFailed);
        }
        let idx = (id.0 - 1) as usize;
        if self.instructions[idx].status != InstructionStatus::Failed {
            return Err(SettlementError::InstructionNotFailed);
        }
        let rec = &mut self.instructions[idx];
        rec.status = InstructionStatus::Pending;
        assert(self.view().instructions =~= s.instructions.update(
            id.0 - 1,
            InstructionView { status: InstructionStatus::Pending, ..instr(s, id) },
        ));
        self.schedule_instruction(id, self.block + 1);
        self.events.push(Event::InstructionRescheduled(did, id));
        Ok(())
    }
}


/// The senders of the legs, in order.
pub open spec fn sender_seq(legs: Seq<LegView>) -> Seq<PortfolioId> {
    legs.map_values(|l: LegView| l.from)
}

impl Settlement {
    fn release_instruction_locks(&mut self, id: InstructionId)
        requires
            old(self).wf(),
            has_instruction(old(self).view(), id),
        ensures
            final(self).wf(),
            final(self).view() == (SettlementView {
                ledger: release_locks(
                    old(self).view().ledger,
                    instr(old(self).view(), id).legs,
                    instr(old(self).view(), id).leg_status,
                    instr(old(self).view(), id).legs.len() as int,
                ),
                ..old(self).view()
            }),
    {
        let ghost s = self.view();
        let ghost iv = instr(s, id);
        let n = self.instructions.len();
        let idx = (id.0 - 1) as usize;
        let nlegs = self.instructions[idx].legs.len();
        let mut staged = self.ledger.duplicate();
        let mut k: usize = 0;
        while k < nlegs
            invariant
                self.wf(),
                self.view() == s,
                idx == id.0 - 1,
                idx < self.instructions@.len(),
                iv == instr(s, id),
                nlegs == iv.legs.len(),
                nlegs == iv.leg_status.len(),
                staged.wf(),
                k <= nlegs,
                staged@ == release_locks(s.ledger, iv.legs, iv.leg_status, k as int),
            decreases nlegs - k,
        {
            let leg = &self.instructions[idx].legs[k];
            assert(leg@ == iv.legs[k as int]);
            if self.instructions[idx].leg_status[k] == LegStatus::ExecutionPending {
                let _ = staged.unlock_leg(leg);
            }
            k = k + 1;
        }
        self.ledger = staged;
    }

    fn senders_of(&self, idx: usize) -> (r: Vec<PortfolioId>)
        requires
            idx < self.instructions@.len(),
        ensures
            r@ == sender_seq(self.view().instructions[idx as int].legs),
    {
        let ghost lv = self.view().instructions[idx as int].legs;
        let nlegs = self.instructions[idx].legs.len();
        let mut r: Vec<PortfolioId> = Vec::new();
        let mut k: usize = 0;
        while k < nlegs
            invariant
                idx < self.instructions@.len(),
                lv == self.view().instructions[idx as int].legs,
                nlegs == lv.len(),
                k <= nlegs,
                r@ == sender_seq(lv.subrange(0, k as int)),
            decreases nlegs - k,
        {
            let leg = &self.instructions[idx].legs[k];
            assert(leg@ == lv[k as int]);
            r.push(leg.from);
            assert(sender_seq(lv.subrange(0, k + 1)) =~= sender_seq(lv.subrange(0, k as int)).push(leg.from));
            k = k + 1;
        }
        assert(lv.subrange(0, nlegs as int) =~= lv);
        r
    }

    /// Rejects instruction `id`: `did`, acting for `portfolio`, a party to it, releases every
    /// lock and receipt, cancels its execution and prunes it with status `Rejected`.
    pub fn base_reject_instruction(
        &mut self,
        did: IdentityId,
        id: InstructionId,
        portfolio: PortfolioId,
        fungible: u32,
        nfts: Option<u32>,
    ) -> (r: Result<(), SettlementError>)
        requires
            old(self).wf(),
        ensures
            final(self).wf(),
            r == reject_check(old(self).view(), did, id, portfolio, fungible, nfts),
            r is Err ==> final(self).view() == old(self).view(),
            r is Ok ==> final(self).view() == rejected(old(self).view(), did, id),
    {
        let ghost s = self.view();
        let n = self.instructions.len();
        if id.0 == 0 || id.0 > n as u64 {
            return Err(SettlementError::UnknownInstruction);
        }
        let idx = (id.0 - 1) as usize;
        if self.instructions[idx].status == InstructionStatus::Unknown {
            return Err(SettlementError::UnknownInstruction);
        }
        if !self.is_party_of(idx, portfolio) {
            return Err(SettlementError::CallerIsNotAParty);
        }
        let senders = self.senders_of(idx);
        let cost = self.sent_cost_check(&self.instructions[idx].legs, &senders, fungible, nfts);
        if let Err(e) = cost {
            return Err(e);
        }
        if !self.custody(portfolio, did) {
            return Err(SettlementError::Unauthorized);
        }
        self.unclaim_instruction_receipts(id);
        self.release_instruction_locks(id);
        self.scheduled.remove(&id);
        self.prune(id, InstructionStatus::Rejected(self.block));
        self.events.push(Event::InstructionRejected(did, id));
        Ok(())
    }

    /// Rejects instruction `id` (legacy form: fungible legs only).
    pub fn reject_instruction(&mut self, did: IdentityId, id: InstructionId, portfolio: PortfolioId, num_of_legs: u32) -> (r: Result<(), SettlementError>)
        requires
            old(self).wf(),
        ensures
            final(self).wf(),
            r == reject_check(old(self).view(), did, id, portfolio, num_of_legs, None),
            r is Err ==> final(self).view() == old(self).view(),
            r is Ok ==> final(self).view() == rejected(old(self).view(), did, id),
    {
        self.base_reject_instruction(did, id, portfolio, num_of_legs, None)
    }

    /// Rejects instruction `id`; `fungible` and `nfts` bound what its legs move.
    pub fn reject_instruction_v2(&mut self, did: IdentityId, id: InstructionId, portfolio: PortfolioId, fungible: u32, nfts: u32) -> (r: Result<(), SettlementError>)
        requires
            old(self).wf(),
        ensures
            final(self).wf(),
            r == reject_check(old(self).view(), did, id, portfolio, fungible, Some(nfts)),
            r is Err ==> final(self).view() == old(self).view(),
            r is Ok ==> final(self).view() == rejected(old(self).view(), did, id),
    {
        self.base_reject_instruction(did, id, portfolio, fungible, Some(nfts))
    }
}


impl Settlement {
    /// Moves to the next block, at time `now`. Fails, changing nothing, at the last block.
    pub fn advance_block(&mut self, now: Moment) -> (r: bool)
        requires
            old(self).wf(),
        ensures
            final(self).wf(),
            r == (old(self).view().block + 1 < u32::MAX),
            r ==> final(self).view() == (SettlementView { block: (old(self).view().block + 1) as BlockNumber, now, ..old(self).view() }),
            !r ==> final(self).view() == old(self).view(),
    {
        if self.block + 1 >= u32::MAX {
            return false;
        }
        self.block = self.block + 1;
        self.now = now;
        true
    }

    /// The instructions whose scheduled execution is due at the current block.
    pub fn due_instructions(&self) -> (r: Vec<InstructionId>)
        requires
            self.wf(),
        ensures
            forall|i: int| 0 <= i < r@.len() ==> self.view().scheduled.contains_key(#[trigger] r@[i])
                && self.view().scheduled[r@[i]] <= self.view().block,
            forall|id: InstructionId| self.view().scheduled.contains_key(id) && self.view().scheduled[id] <= self.view().block ==> r@.contains(id),
            r@.no_duplicates(),
    {
        let keys = self.scheduled.keys();
        let ghost sched = self.view().scheduled;
        let ghost block = self.view().block;
        let mut r: Vec<InstructionId> = Vec::new();
        let mut i: usize = 0;
        while i < keys.len()
            invariant
                self.wf(),
                sched == self.view().scheduled,
                block == self.view().block,
                i <= keys@.len(),
                forall|j: int| 0 <= j < keys@.len() ==> sched.contains_key(#[trigger] keys@[j]),
                forall|id: InstructionId| sched.contains_key(id) ==> keys@.contains(id),
                forall|j: int| 0 <= j < r@.len() ==> sched.contains_key(#[trigger] r@[j]) && sched[r@[j]] <= block,
                forall|j: int| 0 <= j < i && sched[#[trigger] keys@[j]] <= block ==> r@.contains(keys@[j]),
                forall|a: int, b: int| 0 <= a < b < keys@.len() ==> keys@[a] != keys@[b],
                forall|m: int| #![trigger r@[m]] 0 <= m < r@.len() ==> exists|j: int| 0 <= j < i && #[trigger] keys@[j] == r@[m],
                r@.no_duplicates(),
            decreases keys@.len() - i,
        {
            let id = keys[i];
            let ghost r_old = r@;
            match self.scheduled.get(&id) {
                Some(at) => {
                    if at <= self.block {
                        r.push(id);
                    }
                },
                None => {},
            }
            proof {
                assert forall|m: int| #![trigger r@[m]] 0 <= m < r@.len() implies exists|j: int| 0 <= j < i + 1 && #[trigger] keys@[j] == r@[m] by {
                    if m < r_old.len() {
                        let j = choose|j: int| 0 <= j < i && #[trigger] keys@[j] == r_old[m];
                        assert(keys@[j] == r@[m]);
                    } else {
                        assert(keys@[i as int] == r@[m]);
                    }
                }
                assert forall|a: int, b: int| 0 <= a < b < r@.len() implies r@[a] != r@[b] by {
                    if b >= r_old.len() {
                        let j = choose|j: int| 0 <= j < i && #[trigger] keys@[j] == r_old[a];
                        assert(r@[a] == r_old[a]);
                        assert(keys@[j] != keys@[i as int]);
                    } else {
                        assert(r@[a] == r_old[a] && r@[b] == r_old[b]);
                    }
                }
                assert forall|j: int| 0 <= j < i + 1 && sched[#[trigger] keys@[j]] <= block implies r@.contains(keys@[j]) by {
                    if j < i {
                        let m = choose|m: int| 0 <= m < r_old.len() && r_old[m] == keys@[j];
                        assert(r@[m] == keys@[j]);
                    } else {
                        assert(r@[r@.len() - 1] == id);
                    }
                }
            }
            i = i + 1;
        }
        proof {
            assert forall|id: InstructionId| sched.contains_key(id) && sched[id] <= block implies r@.contains(id) by {
                assert(keys@.contains(id));
                let j = choose|j: int| 0 <= j < keys@.len() && keys@[j] == id;
                assert(sched[keys@[j]] <= block);
            }
        }
        r
    }

    /// The block at which the execution of `id` is scheduled, if it is.
    pub fn scheduled_at(&self, id: InstructionId) -> (r: Option<BlockNumber>)
        requires
            self.wf(),
        ensures
            r == (if self.view().scheduled.contains_key(id) {
                Some(self.view().scheduled[id])
            } else {
                None::<BlockNumber>
            }),
    {
        self.scheduled.get(&id)
    }

    /// The status of instruction `id`.
    pub fn instruction_status(&self, id: InstructionId) -> (r: InstructionStatus)
        ensures
            r == status_of(self.view(), id),
    {
        let n = self.instructions.len();
        if id.0 == 0 || id.0 > n as u64 {
            return InstructionStatus::Unknown;
        }
        self.instructions[(id.0 - 1) as usize].status
    }

    /// How many affirmations instruction `id` still waits for.
    pub fn instruction_affirms_pending(&self, id: InstructionId) -> (r: u64)
        ensures
            r == pending_of(self.view(), id),
    {
        let n = self.instructions.len();
        if id.0 == 0 || id.0 > n as u64 {
            return 0;
        }
        self.instructions[(id.0 - 1) as usize].affirms_pending
    }

    /// The details of instruction `id`, while it is stored.
    pub fn instruction_details(&self, id: InstructionId) -> (r: Option<Instruction>)
        ensures
            r == (if has_instruction(self.view(), id) {
                instr(self.view(), id).details
            } else {
                None::<Instruction>
            }),
    {
        let n = self.instructions.len();
        if id.0 == 0 || id.0 > n as u64 {
            return None;
        }
        self.instructions[(id.0 - 1) as usize].details
    }

    /// The memo of instruction `id`.
    pub fn memo(&self, id: InstructionId) -> (r: Option<InstructionMemo>)
        ensures
            r == (if has_instruction(self.view(), id) {
                instr(self.view(), id).memo
            } else {
                None::<InstructionMemo>
            }),
    {
        let n = self.instructions.len();
        if id.0 == 0 || id.0 > n as u64 {
            return None;
        }
        self.instructions[(id.0 - 1) as usize].memo
    }

    /// The status of leg `leg` of instruction `id`; `PendingTokenLock` where there is none.
    pub fn instruction_leg_status(&self, id: InstructionId, leg: LegId) -> (r: LegStatus)
        requires
            self.wf(),
        ensures
            r == (if has_instruction(self.view(), id) && leg.0 < instr(self.view(), id).leg_status.len() {
                instr(self.view(), id).leg_status[leg.0 as int]
            } else {
                LegStatus::PendingTokenLock
            }),
    {
        let n = self.instructions.len();
        if id.0 == 0 || id.0 > n as u64 {
            return LegStatus::PendingTokenLock;
        }
        let rec = &self.instructions[(id.0 - 1) as usize];
        if leg.0 >= rec.leg_status.len() as u64 {
            return LegStatus::PendingTokenLock;
        }
        rec.leg_status[leg.0 as usize]
    }

    /// The affirmation status of portfolio `p` on instruction `id`.
    pub fn user_affirmations(&self, p: PortfolioId, id: InstructionId) -> (r: AffirmationStatus)
        requires
            self.wf(),
        ensures
            r == affirmation_of(self.view(), id, p),
    {
        let n = self.instructions.len();
        if id.0 == 0 || id.0 > n as u64 {
            return AffirmationStatus::Unknown;
        }
        match self.instructions[(id.0 - 1) as usize].affirmations.get(&p) {
            Some(a) => a,
            None => AffirmationStatus::Unknown,
        }
    }

    /// Whether receipt `uid` of `signer` is marked used.
    pub fn receipts_used(&self, signer: AccountId, uid: u64) -> (r: bool)
        requires
            self.wf(),
        ensures
            r == receipt_used(self.view(), ReceiptKey { signer, uid }),
    {
        match self.receipts_used.get(&ReceiptKey { signer, uid }) {
            Some(b) => b,
            None => false,
        }
    }

    /// Venue `id`, if it exists.
    pub fn venue_info(&self, id: VenueId) -> (r: Option<Venue>)
        ensures
            r == (if has_venue(self.view(), id) {
                Some(venue_of(self.view(), id).info)
            } else {
                None::<Venue>
            }),
    {
        let n = self.venues.len();
        if id.0 == 0 || id.0 > n as u64 {
            return None;
        }
        Some(self.venues[(id.0 - 1) as usize].info)
    }

    /// Whether `signer` may sign receipts for venue `id`.
    pub fn venue_signers(&self, id: VenueId, signer: AccountId) -> (r: bool)
        requires
            self.wf(),
        ensures
            r == (has_venue(self.view(), id) && venue_of(self.view(), id).signers.contains(signer)),
    {
        let n = self.venues.len();
        if id.0 == 0 || id.0 > n as u64 {
            return false;
        }
        self.venues[(id.0 - 1) as usize].signers.contains(&signer)
    }

    /// Whether asset `t` filters venues.
    pub fn venue_filtering(&self, t: Ticker) -> (r: bool)
        requires
            self.wf(),
        ensures
            r == self.view().filtering.contains(t),
    {
        self.filtering.contains(&t)
    }

    /// Whether venue `v` is on the allow-list of asset `t`.
    pub fn venue_allow_list(&self, t: Ticker, v: VenueId) -> (r: bool)
        requires
            self.wf(),
        ensures
            r == self.view().allowed.contains(AllowKey { ticker: t, venue: v }),
    {
        self.allowed.contains(&AllowKey { ticker: t, venue: v })
    }

    /// Leg `leg_id` of instruction `id`, while the instruction is stored.
    pub fn get_instruction_leg(&self, id: InstructionId, leg_id: LegId) -> (r: Option<LegV2>)
        ensures
            match r {
                Some(l) => has_instruction(self.view(), id) && leg_id.0 < instr(self.view(), id).legs.len()
                    && l@ == instr(self.view(), id).legs[leg_id.0 as int],
                None => !(has_instruction(self.view(), id) && leg_id.0 < instr(self.view(), id).legs.len()),
            },
    {
        let n = self.instructions.len();
        if id.0 == 0 || id.0 > n as u64 {
            return None;
        }
        let rec = &self.instructions[(id.0 - 1) as usize];
        if leg_id.0 >= rec.legs.len() as u64 {
            return None;
        }
        let l = rec.legs[leg_id.0 as usize].duplicate();
        Some(l)
    }

    /// The legs of instruction `id` with their ids, in leg-id order.
    pub fn get_instruction_legs(&self, id: InstructionId) -> (r: Vec<(LegId, LegV2)>)
        ensures
            has_instruction(self.view(), id) ==> r@.len() == instr(self.view(), id).legs.len(),
            !has_instruction(self.view(), id) ==> r@.len() == 0,
            forall|k: int| 0 <= k < r@.len() ==> (#[trigger] r@[k]).0 == LegId(k as u64)
                && r@[k].1@ == instr(self.view(), id).legs[k],
    {
        let mut r: Vec<(LegId, LegV2)> = Vec::new();
        let n = self.instructions.len();
        if id.0 == 0 || id.0 > n as u64 {
            return r;
        }
        let idx = (id.0 - 1) as usize;
        let ghost lv = instr(self.view(), id).legs;
        let nlegs = self.instructions[idx].legs.len();
        let mut k: usize = 0;
        while k < nlegs
            invariant
                idx == id.0 - 1,
                idx < self.instructions@.len(),
                lv == instr(self.view(), id).legs,
                nlegs == lv.len(),
                k <= nlegs,
                r@.len() == k,
                forall|j: int| 0 <= j < k ==> (#[trigger] r@[j]).0 == LegId(j as u64) && r@[j].1@ == lv[j],
            decreases nlegs - k,
        {
            let l = self.instructions[idx].legs[k].duplicate();
            assert(self.instructions@[idx as int].legs@[k as int]@ == lv[k as int]);
            r.push((LegId(k as u64), l));
            k = k + 1;
        }
        r
    }
}


/// The state after `did` adds an instruction and affirms it for `portfolios`, declaring
/// `fungible` and `nfts`; or why it fails.
pub open spec fn add_and_affirm_outcome(
    s: SettlementView,
    did: IdentityId,
    v: VenueId,
    st: SettlementType,
    trade_date: Option<Moment>,
    value_date: Option<Moment>,
    legs: Seq<LegView>,
    memo: Option<InstructionMemo>,
    portfolios: Seq<PortfolioId>,
    fungible: u32,
    nfts: Option<u32>,
) -> Result<SettlementView, SettlementError> {
    let chk = add_check(s, did, v, st, trade_date, value_date, legs);
    if chk is Err {
        Err(chk->Err_0)
    } else {
        let s1 = added(s, did, v, st, new_instruction(s, v, st, trade_date, value_date, legs, memo, seeded_affirmations(legs)));
        let id = InstructionId((s.instructions.len() + 1) as u64);
        let a = affirm_check(s1, did, id, portfolios, Seq::empty(), fungible, nfts);
        if a is Err {
            Err(a->Err_0)
        } else {
            Ok(maybe_schedule(affirmed(s1, did, id, portfolios, Seq::empty()), id))
        }
    }
}

impl Settlement {
    /// Undoes the addition of the last instruction, `id`.
    fn undo_add(&mut self, s: Ghost<SettlementView>, id: InstructionId, n_events: usize, was_scheduled: bool)
        requires
            old(self).wf(),
            s@.instructions.len() + 1 == old(self).view().instructions.len(),
            id.0 == old(self).view().instructions.len(),
            old(self).view() == (SettlementView {
                instructions: s@.instructions.push(old(self).view().instructions.last()),
                events: old(self).view().events,
                scheduled: old(self).view().scheduled,
                ..s@
            }),
            n_events == s@.events.len(),
            n_events <= old(self).view().events.len(),
            s@.events == old(self).view().events.subrange(0, n_events as int),
            was_scheduled == s@.scheduled.contains_key(id),
            was_scheduled ==> old(self).view().scheduled == s@.scheduled,
            !was_scheduled ==> old(self).view().scheduled.remove(id) == s@.scheduled,
            valid_state(s@),
        ensures
            final(self).wf(),
            final(self).view() == s@,
    {
        let ghost old_v = self.view();
        let ghost old_i = self.instructions@;
        self.instructions.pop();
        self.events.truncate(n_events);
        if !was_scheduled {
            self.scheduled.remove(&id);
        }
        assert(self.instructions@ =~= old_i.drop_last());
        assert forall|i: int| 0 <= i < s@.instructions.len() implies self.view().instructions[i] == s@.instructions[i] by {
            assert(self.instructions@[i] == old_i[i]);
            assert(old_v.instructions[i] == s@.instructions.push(old_v.instructions.last())[i]);
        }
        assert(self.view().instructions =~= s@.instructions);
        assert(self.view().events =~= s@.events);
    }

    fn add_and_affirm_core(
        &mut self,
        did: IdentityId,
        venue_id: VenueId,
        settlement_type: SettlementType,
        trade_date: Option<Moment>,
        value_date: Option<Moment>,
        legs: Vec<LegV2>,
        portfolios: Vec<PortfolioId>,
        memo: Option<InstructionMemo>,
        legacy: bool,
    ) -> (r: Result<(), SettlementError>)
        requires
            old(self).wf(),
        ensures
            final(self).wf(),
            ({
                let s = old(self).view();
                let lv = leg_views(legs@);
                let fungible = if legacy { lv.len() as u32 } else { fungible_count(lv) as u32 };
                let nfts = if legacy { None } else { Some(nft_count(lv) as u32) };
                let o = add_and_affirm_outcome(s, did, venue_id, settlement_type, trade_date, value_date, lv, memo, portfolios@, fungible, nfts);
                &&& r is Ok <==> o is Ok
                &&& r is Err ==> r->Err_0 == o->Err_0 && final(self).view() == s
                &&& r is Ok ==> final(self).view() == o->Ok_0
            }),
    {
        let ghost s = self.view();
        let ghost lv = leg_views(legs@);
        proof {
            self.lemma_valid_state();
        }
        let n_events = self.events.len();
        let count = self.instructions.len() as u64;
        let next = if count < u64::MAX {
            InstructionId(count + 1)
        } else {
            InstructionId(0)
        };
        let was_scheduled = self.scheduled.contains(&next);
        let id = match self.base_add_instruction(did, venue_id, settlement_type, trade_date, value_date, legs, memo) {
            Ok(id) => id,
            Err(e) => {
                return Err(e);
            },
        };
        let n = self.instructions.len();
        let idx = (id.0 - 1) as usize;
        assert(leg_views(self.instructions@[idx as int].legs@) == lv);
        proof {
            lemma_counts_bounded(s, venue_id, lv);
        }
        let (fungible, nfts) = if legacy {
            (self.instructions[idx].legs.len() as u32, None)
        } else {
            let (f, nf) = get_transfer_by_asset(&self.instructions[idx].legs);
            (f, Some(nf))
        };
        let none: Vec<ReceiptDetails> = Vec::new();
        let none_ok: Vec<bool> = Vec::new();
        assert(receipt_views(none@, none_ok@) =~= Seq::<ReceiptDetailsView>::empty());
        match self.affirm_core(did, id, &none, &none_ok, &portfolios, fungible, nfts) {
            Ok(_) => {
                self.maybe_schedule_instruction(id);
                Ok(())
            },
            Err(e) => {
                proof {
                    assert(s.events =~= self.view().events.subrange(0, n_events as int));
                    if !was_scheduled {
                        assert(self.view().scheduled.remove(id) =~= s.scheduled);
                    }
                }
                self.undo_add(Ghost(s), id, n_events, was_scheduled);
                Err(e)
            },
        }
    }

    /// Adds an instruction with legacy legs and affirms it for `portfolios` of `did`, as one
    /// step: if the affirmation fails, the instruction is not added either.
    pub fn add_and_affirm_instruction(
        &mut self,
        did: IdentityId,
        venue_id: VenueId,
        settlement_type: SettlementType,
        trade_date: Option<Moment>,
        value_date: Option<Moment>,
        legs: Vec<Leg>,
        portfolios: Vec<PortfolioId>,
    ) -> (r: Result<(), SettlementError>)
        requires
            old(self).wf(),
        ensures
            final(self).wf(),
            ({
                let s = old(self).view();
                let lv = legacy_views(legs@);
                let o = add_and_affirm_outcome(s, did, venue_id, settlement_type, trade_date, value_date, lv, None, portfolios@, lv.len() as u32, None);
                &&& r is Ok <==> o is Ok
                &&& r is Err ==> r->Err_0 == o->Err_0 && final(self).view() == s
                &&& r is Ok ==> final(self).view() == o->Ok_0
            }),
    {
        self.add_and_affirm_instruction_with_memo(did, venue_id, settlement_type, trade_date, value_date, legs, portfolios, None)
    }

    /// Adds an instruction with legacy legs and a memo, and affirms it, as one step.
    pub fn add_and_affirm_instruction_with_memo(
        &mut self,
        did: IdentityId,
        venue_id: VenueId,
        settlement_type: SettlementType,
        trade_date: Option<Moment>,
        value_date: Option<Moment>,
        legs: Vec<Leg>,
        portfolios: Vec<PortfolioId>,
        memo: Option<InstructionMemo>,
    ) -> (r: Result<(), SettlementError>)
        requires
            old(self).wf(),
        ensures
            final(self).wf(),
            ({
                let s = old(self).view();
                let lv = legacy_views(legs@);
                let o = add_and_affirm_outcome(s, did, venue_id, settlement_type, trade_date, value_date, lv, memo, portfolios@, lv.len() as u32, None);
                &&& r is Ok <==> o is Ok
                &&& r is Err ==> r->Err_0 == o->Err_0 && final(self).view() == s
                &&& r is Ok ==> final(self).view() == o->Ok_0
            }),
    {
        let v2 = legs_to_v2(&legs);
        proof {
            lemma_legacy_views(legs@, v2@);
        }
        self.add_and_affirm_core(did, venue_id, settlement_type, trade_date, value_date, v2, portfolios, memo, true)
    }

    /// Adds an instruction with unified legs and a memo, and affirms it, as one step.
    pub fn add_and_affirm_instruction_with_memo_v2(
        &mut self,
        did: IdentityId,
        venue_id: VenueId,
        settlement_type: SettlementType,
        trade_date: Option<Moment>,
        value_date: Option<Moment>,
        legs: Vec<LegV2>,
        portfolios: Vec<PortfolioId>,
        memo: Option<InstructionMemo>,
    ) -> (r: Result<(), SettlementError>)
        requires
            old(self).wf(),
        ensures
            final(self).wf(),
            ({
                let s = old(self).view();
                let lv = leg_views(legs@);
                let o = add_and_affirm_outcome(
                    s, did, venue_id, settlement_type, trade_date, value_date, lv, memo, portfolios@,
                    fungible_count(lv) as u32, Some(nft_count(lv) as u32),
                );
                &&& r is Ok <==> o is Ok
                &&& r is Err ==> r->Err_0 == o->Err_0 && final(self).view() == s
                &&& r is Ok ==> final(self).view() == o->Ok_0
            }),
    {
        self.add_and_affirm_core(did, venue_id, settlement_type, trade_date, value_date, legs, portfolios, memo, false)
    }
}

/// Legs that form an instruction count within the limits, which are `u32`.
proof fn lemma_counts_bounded(s: SettlementView, v: VenueId, legs: Seq<LegView>)
    requires
        legs_check(s, v, legs) is Ok,
    ensures
        fungible_count(legs) <= u32::MAX,
        nft_count(legs) <= u32::MAX,
{
}


/// The state after `did` affirms instruction `id` with `rs` and, where that completes an
/// instruction that settles on affirmation, executes it at once. An instruction that this
/// does not complete stays stored and pending. Or why it fails.
pub open spec fn affirm_and_execute_outcome(
    s: SettlementView,
    did: IdentityId,
    id: InstructionId,
    rs: Seq<ReceiptDetailsView>,
    portfolios: Seq<PortfolioId>,
    max_legs_count: u32,
    nfts: Option<u32>,
) -> Result<SettlementView, SettlementError> {
    let chk = affirm_check(s, did, id, portfolios, rs, max_legs_count, nfts);
    if chk is Err {
        Err(chk->Err_0)
    } else {
        let s1 = affirmed(s, did, id, portfolios, rs);
        let i = instr(s1, id);
        if i.details is Some && i.details.unwrap().settlement_type == SettlementType::SettleOnAffirmation
            && i.affirms_pending == 0 {
            if execute_check(s1, id) is Err {
                Err(execute_check(s1, id)->Err_0)
            } else {
                Ok(executed(s1, id))
            }
        } else {
            Ok(s1)
        }
    }
}

/// The receipt, if one is given, with the verdict `v` on its signature.
pub open spec fn optional_receipt(receipt: Option<ReceiptDetails>, v: bool) -> Seq<ReceiptDetailsView> {
    match receipt {
        Some(x) => seq![checked(x, v)],
        None => Seq::empty(),
    }
}

/// Whether `r` and `t` are the result and state of `affirm_and_execute_instruction` from `s`,
/// where `v` is the verdict on the receipt's signature.
pub open spec fn affirm_execute_result(
    s: SettlementView,
    did: IdentityId,
    id: InstructionId,
    receipt: Option<ReceiptDetails>,
    v: bool,
    portfolios: Seq<PortfolioId>,
    max_legs_count: u32,
    nfts: Option<u32>,
    r: Result<(), SettlementError>,
    t: SettlementView,
) -> bool {
    let nf = if receipt is Some { None } else { nfts };
    let o = affirm_and_execute_outcome(s, did, id, optional_receipt(receipt, v), portfolios, max_legs_count, nf);
    &&& r is Ok <==> o is Ok
    &&& r is Err ==> r->Err_0 == o->Err_0 && t == s
    &&& r is Ok ==> t == o->Ok_0
}

fn copy_statuses(v: &Vec<LegStatus>) -> (r: Vec<LegStatus>)
    ensures
        r@ == v@,
{
    let mut r: Vec<LegStatus> = Vec::new();
    let mut i: usize = 0;
    while i < v.len()
        invariant
            i <= v@.len(),
            r@ == v@.subrange(0, i as int),
        decreases v@.len() - i,
    {
        r.push(v[i]);
        i = i + 1;
        assert(r@ =~= v@.subrange(0, i as int));
    }
    assert(v@.subrange(0, v@.len() as int) =~= v@);
    r
}

impl Settlement {
    /// Affirms instruction `id` for `portfolios` of `did`, with at most one receipt, then
    /// executes it at once if it settles on affirmation and waits for no other affirmation.
    /// Otherwise the instruction stays stored and pending. On any error, the affirmation too
    /// is undone.
    pub fn affirm_and_execute_instruction(
        &mut self,
        did: IdentityId,
        id: InstructionId,
        receipt: Option<ReceiptDetails>,
        portfolios: Vec<PortfolioId>,
        max_legs_count: u32,
        nfts: Option<u32>,
    ) -> (r: Result<(), SettlementError>)
        requires
            old(self).wf(),
        ensures
            final(self).wf(),
            exists|v: bool|
                (receipt is Some ==> verdicts_fit(old(self).view(), id, seq![receipt->Some_0], seq![v]))
                    && #[trigger] affirm_execute_result(
                    old(self).view(), did, id, receipt, v, portfolios@, max_legs_count, nfts, r, final(self).view(),
                ),
    {
        let ghost s = self.view();
        let n = self.instructions.len();
        if id.0 == 0 || id.0 > n as u64 {
            let r = Err(SettlementError::UnknownInstruction);
            assert(affirm_execute_result(s, did, id, receipt, false, portfolios@, max_legs_count, nfts, r, self.view()));
            return r;
        }
        let idx = (id.0 - 1) as usize;
        let ghost iv = instr(s, id);
        let saved_ledger = self.ledger.duplicate();
        let saved_receipts = self.receipts_used.duplicate();
        let saved_status = copy_statuses(&self.instructions[idx].leg_status);
        let saved_affs = self.instructions[idx].affirmations.duplicate();
        let saved_pending = self.instructions[idx].affirms_pending;
        assert(saved_status@ == iv.leg_status);
        assert(saved_affs.view() == iv.affirmations);
        assert(saved_pending == iv.affirms_pending);
        let n_events = self.events.len();
        let ghost receipt0 = receipt;
        let (receipts, nf) = match receipt {
            Some(x) => (vec![x], None),
            None => (Vec::new(), nfts),
        };
        let sig_ok = self.receipt_signatures(id, &receipts);
        let ghost v = receipt0 is Some && sig_ok@[0];
        assert(receipt_views(receipts@, sig_ok@) =~= optional_receipt(receipt0, v));
        proof {
            if receipt0 is Some {
                assert(receipts@ =~= seq![receipt0->Some_0]);
                assert(sig_ok@ =~= seq![v]);
            }
        }
        if let Err(e) = self.affirm_core(did, id, &receipts, &sig_ok, &portfolios, max_legs_count, nf) {
            assert(affirm_execute_result(s, did, id, receipt0, v, portfolios@, max_legs_count, nfts, Err(e), self.view()));
            return Err(e);
        }
        let ghost s1 = self.view();
        assert(s1 == affirmed(s, did, id, portfolios@, receipt_views(receipts@, sig_ok@)));
        assert(s1.instructions.len() == s.instructions.len());
        assert(self.instructions@.len() == s1.instructions.len());
        let ready = match self.instructions[idx].details {
            Some(d) => d.settlement_type == SettlementType::SettleOnAffirmation && self.instructions[idx].affirms_pending == 0,
            None => false,
        };
        if ready {
            match self.try_execute(id) {
                Ok(ledger) => {
                    self.commit_execution(id, ledger);
                },
                Err((e, _, _)) => {
                    self.ledger = saved_ledger;
                    self.receipts_used = saved_receipts;
                    self.events.truncate(n_events);
                    let rec = &mut self.instructions[idx];
                    rec.leg_status = saved_status;
                    rec.affirmations = saved_affs;
                    rec.affirms_pending = saved_pending;
                    proof {
                        assert forall|j: int| 0 <= j < s.instructions.len() implies self.view().instructions[j] == s.instructions[j] by {
                            if j != idx {
                                assert(s1.instructions[j] == s.instructions[j]);
                                assert(self.view().instructions[j] == s1.instructions[j]);
                            }
                        }
                        assert(self.view().instructions =~= s.instructions);
                        assert(self.view().events =~= s.events);
                        assert(affirm_execute_result(s, did, id, receipt0, v, portfolios@, max_legs_count, nfts, Err(e), self.view()));
                    }
                    return Err(e);
                },
            }
        }
        assert(affirm_execute_result(s, did, id, receipt0, v, portfolios@, max_legs_count, nfts, Ok(()), self.view()));
        Ok(())
    }
}


impl Settlement {
    /// The venues that `did` created, oldest first.
    pub fn user_venues(&self, did: IdentityId) -> (r: Vec<VenueId>)
        ensures
            forall|i: int| 0 <= i < r@.len() ==> has_venue(self.view(), #[trigger] r@[i])
                && venue_of(self.view(), r@[i]).info.creator == did,
            forall|v: VenueId| has_venue(self.view(), v) && venue_of(self.view(), v).info.creator == did ==> r@.contains(v),
            forall|i: int, j: int| 0 <= i < j < r@.len() ==> r@[i].0 < r@[j].0,
    {
        let ghost s = self.view();
        let n = self.venues.len();
        let mut r: Vec<VenueId> = Vec::new();
        let mut j: usize = 0;
        while j < n
            invariant
                s == self.view(),
                n == s.venues.len(),
                j <= n,
                forall|i: int| 0 <= i < r@.len() ==> has_venue(s, #[trigger] r@[i]) && venue_of(s, r@[i]).info.creator == did
                    && r@[i].0 <= j,
                forall|k: int| 0 <= k < j && s.venues[k].info.creator == did ==> r@.contains(VenueId((k + 1) as u64)),
                forall|a: int, b: int| 0 <= a < b < r@.len() ==> r@[a].0 < r@[b].0,
            decreases n - j,
        {
            let ghost r_old = r@;
            if self.venues[j].info.creator == did {
                r.push(VenueId(j as u64 + 1));
            }
            proof {
                assert forall|k: int| 0 <= k < j + 1 && s.venues[k].info.creator == did implies r@.contains(VenueId((k + 1) as u64)) by {
                    if k < j {
                        let m = choose|m: int| 0 <= m < r_old.len() && r_old[m] == VenueId((k + 1) as u64);
                        assert(r@[m] == VenueId((k + 1) as u64));
                    } else {
                        assert(r@[r@.len() - 1] == VenueId((k + 1) as u64));
                    }
                }
            }
            j = j + 1;
        }
        proof {
            assert forall|v: VenueId| has_venue(s, v) && venue_of(s, v).info.creator == did implies r@.contains(v) by {
                assert(s.venues[v.0 - 1].info.creator == did);
                assert(VenueId(((v.0 - 1) + 1) as u64) == v);
            }
        }
        r
    }
}

} // verus!

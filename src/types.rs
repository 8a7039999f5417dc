//! Identifiers, legs, statuses and errors of the settlement engine.
use crate::table::TableKey;
use vstd::prelude::*;

verus! {

/// Fungible amounts.
pub type Balance = u128;

/// Block heights.
pub type BlockNumber = u32;

/// Moments in time (milliseconds).
pub type Moment = u64;

/// An on-chain identity.
#[derive(Clone, Copy, Debug, PartialEq, Eq, Structural)]
pub struct IdentityId(pub u64);

/// Which portfolio of an identity.
#[derive(Clone, Copy, Debug, PartialEq, Eq, Structural)]
pub enum PortfolioKind {
    Default,
    User(u64),
}

/// A portfolio: a custodial sub-account of an identity.
#[derive(Clone, Copy, Debug, PartialEq, Eq, Structural)]
pub struct PortfolioId {
    pub did: IdentityId,
    pub kind: PortfolioKind,
}

impl PortfolioId {
    /// The default portfolio of `did`.
    pub fn default_portfolio(did: IdentityId) -> (r: PortfolioId)
        ensures
            r == (PortfolioId { did, kind: PortfolioKind::Default }),
    {
        PortfolioId { did, kind: PortfolioKind::Default }
    }

    /// The user portfolio number `num` of `did`.
    pub fn user_portfolio(did: IdentityId, num: u64) -> (r: PortfolioId)
        ensures
            r == (PortfolioId { did, kind: PortfolioKind::User(num) }),
    {
        PortfolioId { did, kind: PortfolioKind::User(num) }
    }
}

/// An asset symbol: up to twelve bytes, held big-endian and zero padded in an integer.
#[derive(Clone, Copy, Debug, PartialEq, Eq, Structural)]
pub struct Ticker(pub u128);

/// An account: a 32-byte public key, held as its big-endian first and second halves.
#[derive(Clone, Copy, Debug, PartialEq, Eq, Structural)]
pub struct AccountId {
    pub high: u128,
    pub low: u128,
}

/// A global and unique venue id.
#[derive(Clone, Copy, Debug, PartialEq, Eq, Structural)]
pub struct VenueId(pub u64);

/// A global and unique instruction id.
#[derive(Clone, Copy, Debug, PartialEq, Eq, Structural)]
pub struct InstructionId(pub u64);

/// A leg's position within its instruction, counted from zero.
#[derive(Clone, Copy, Debug, PartialEq, Eq, Structural)]
pub struct LegId(pub u64);

/// Free text about a venue.
#[derive(Clone, Debug)]
pub struct VenueDetails(pub Vec<u8>);

/// A fixed-size memo attached to an instruction.
#[derive(Clone, Copy, Debug)]
pub struct InstructionMemo(pub [u8; 32]);

/// Status of an instruction.
#[derive(Clone, Copy, Debug, PartialEq, Eq, Structural)]
pub enum InstructionStatus {
    /// Never created.
    Unknown,
    /// Created and waiting for execution.
    Pending,
    /// Its last execution attempt failed.
    Failed,
    /// Executed at the given block.
    Success(BlockNumber),
    /// Rejected at the given block.
    Rejected(BlockNumber),
}

/// Type of a venue.
#[derive(Clone, Copy, Debug, PartialEq, Eq, Structural)]
pub enum VenueType {
    Other,
    Distribution,
    Sto,
    Exchange,
}

/// Status of a leg.
#[derive(Clone, Copy, Debug, PartialEq, Eq, Structural)]
pub enum LegStatus {
    /// Waiting for the sender's affirmation.
    PendingTokenLock,
    /// The sender's assets are locked; waiting for execution.
    ExecutionPending,
    /// Settled off-chain under the receipt (signer, receipt uid).
    ExecutionToBeSkipped(AccountId, u64),
}

/// Status of a party's affirmation.
#[derive(Clone, Copy, Debug, PartialEq, Eq, Structural)]
pub enum AffirmationStatus {
    Unknown,
    Pending,
    Affirmed,
}

/// When an instruction settles.
#[derive(Clone, Copy, Debug, PartialEq, Eq, Structural)]
pub enum SettlementType {
    /// In the block after the last affirmation.
    SettleOnAffirmation,
    /// At the given block.
    SettleOnBlock(BlockNumber),
    /// By an explicit call, at or after the given block.
    SettleManual(BlockNumber),
}

/// A venue: its creator and type.
#[derive(Clone, Copy, Debug, PartialEq, Eq, Structural)]
pub struct Venue {
    pub creator: IdentityId,
    pub venue_type: VenueType,
}

/// The persistent details of an instruction.
#[derive(Clone, Copy, Debug, PartialEq, Eq, Structural)]
pub struct Instruction {
    pub instruction_id: InstructionId,
    pub venue_id: VenueId,
    pub settlement_type: SettlementType,
    pub created_at: Option<Moment>,
    pub trade_date: Option<Moment>,
    pub value_date: Option<Moment>,
}

/// Non-fungible tokens of one ticker.
#[derive(Clone, Debug)]
pub struct NFTs {
    pub ticker: Ticker,
    pub ids: Vec<u64>,
}

/// What a leg moves.
#[derive(Clone, Debug)]
pub enum LegAsset {
    Fungible { ticker: Ticker, amount: Balance },
    NonFungible(NFTs),
}

/// A leg in the legacy form: fungible assets only.
#[derive(Clone, Copy, Debug, PartialEq, Eq, Structural)]
pub struct Leg {
    pub from: PortfolioId,
    pub to: PortfolioId,
    pub asset: Ticker,
    pub amount: Balance,
}

/// A leg: one transfer of fungible or non-fungible assets between two portfolios.
#[derive(Clone, Debug)]
pub struct LegV2 {
    pub from: PortfolioId,
    pub to: PortfolioId,
    pub asset: LegAsset,
}

/// A leg as a value of specifications.
pub enum AssetView {
    Fungible { ticker: Ticker, amount: Balance },
    NonFungible { ticker: Ticker, ids: Seq<u64> },
}

pub struct LegView {
    pub from: PortfolioId,
    pub to: PortfolioId,
    pub asset: AssetView,
}

impl AssetView {
    pub open spec fn ticker(self) -> Ticker {
        match self {
            AssetView::Fungible { ticker, .. } => ticker,
            AssetView::NonFungible { ticker, .. } => ticker,
        }
    }

    pub open spec fn is_fungible(self) -> bool {
        self is Fungible
    }

    /// The amount moved: the fungible amount, or the number of tokens.
    pub open spec fn amount(self) -> nat {
        match self {
            AssetView::Fungible { amount, .. } => amount as nat,
            AssetView::NonFungible { ids, .. } => ids.len(),
        }
    }
}

impl View for LegAsset {
    type V = AssetView;

    open spec fn view(&self) -> AssetView {
        match self {
            LegAsset::Fungible { ticker, amount } => AssetView::Fungible {
                ticker: *ticker,
                amount: *amount,
            },
            LegAsset::NonFungible(nfts) => AssetView::NonFungible {
                ticker: nfts.ticker,
                ids: nfts.ids@,
            },
        }
    }
}

impl View for LegV2 {
    type V = LegView;

    open spec fn view(&self) -> LegView {
        LegView { from: self.from, to: self.to, asset: self.asset@ }
    }
}

impl LegAsset {
    /// The ticker moved and the amount: for non-fungible tokens, how many.
    pub fn ticker_and_amount(&self) -> (r: (Ticker, Balance))
        ensures
            r.0 == self@.ticker(),
            r.1 == self@.amount(),
    {
        match self {
            LegAsset::Fungible { ticker, amount } => (*ticker, *amount),
            LegAsset::NonFungible(nfts) => (nfts.ticker, nfts.ids.len() as Balance),
        }
    }

    /// A copy of this asset.
    pub fn duplicate(&self) -> (r: LegAsset)
        ensures
            r@ == self@,
    {
        match self {
            LegAsset::Fungible { ticker, amount } => LegAsset::Fungible {
                ticker: *ticker,
                amount: *amount,
            },
            LegAsset::NonFungible(nfts) => {
                let ids = nfts.ids.clone();
                assert(ids@ =~= nfts.ids@);
                LegAsset::NonFungible(NFTs { ticker: nfts.ticker, ids })
            },
        }
    }
}

impl LegV2 {
    /// A copy of this leg.
    pub fn duplicate(&self) -> (r: LegV2)
        ensures
            r@ == self@,
    {
        LegV2 { from: self.from, to: self.to, asset: self.asset.duplicate() }
    }
}

/// The legacy form of a unified leg; only fungible legs have one.
pub open spec fn legacy_of(l: LegView) -> Option<Leg> {
    match l.asset {
        AssetView::Fungible { ticker, amount } => Some(
            Leg { from: l.from, to: l.to, asset: ticker, amount },
        ),
        AssetView::NonFungible { .. } => None,
    }
}

impl Leg {
    /// Converts a unified leg to the legacy form; non-fungible legs have none.
    pub fn try_from(leg: LegV2) -> (r: Result<Leg, SettlementError>)
        ensures
            match legacy_of(leg@) {
                Some(l) => r == Ok::<Leg, SettlementError>(l),
                None => r == Err::<Leg, SettlementError>(SettlementError::InvalidLegAsset),
            },
    {
        match leg.asset {
            LegAsset::Fungible { ticker, amount } => Ok(
                Leg { from: leg.from, to: leg.to, asset: ticker, amount },
            ),
            LegAsset::NonFungible(_) => Err(SettlementError::InvalidLegAsset),
        }
    }

    /// The unified form of this leg.
    pub fn to_v2(&self) -> (r: LegV2)
        ensures
            r@ == (LegView {
                from: self.from,
                to: self.to,
                asset: AssetView::Fungible { ticker: self.asset, amount: self.amount },
            }),
            legacy_of(r@) == Some(*self),
    {
        LegV2 {
            from: self.from,
            to: self.to,
            asset: LegAsset::Fungible { ticker: self.asset, amount: self.amount },
        }
    }
}

/// Converts a list of legacy legs to the unified form.
pub fn legs_to_v2(legs: &Vec<Leg>) -> (r: Vec<LegV2>)
    ensures
        r@.len() == legs@.len(),
        forall|i: int| 0 <= i < legs@.len() ==> legacy_of(#[trigger] r@[i]@) == Some(legs@[i]),
        forall|i: int| 0 <= i < legs@.len() ==> (#[trigger] r@[i]@).asset.is_fungible(),
{
    let mut r: Vec<LegV2> = Vec::new();
    let mut i: usize = 0;
    while i < legs.len()
        invariant
            i <= legs@.len(),
            r@.len() == i,
            forall|j: int| 0 <= j < i ==> legacy_of(#[trigger] r@[j]@) == Some(legs@[j]),
            forall|j: int| 0 <= j < i ==> (#[trigger] r@[j]@).asset.is_fungible(),
        decreases legs@.len() - i,
    {
        r.push(legs[i].to_v2());
        i = i + 1;
    }
    r
}

/// An off-chain receipt: the message that a receipt's signer signs.
#[derive(Clone, Copy, Debug, PartialEq, Eq, Structural)]
pub struct Receipt {
    pub receipt_uid: u64,
    pub from: PortfolioId,
    pub to: PortfolioId,
    pub asset: Ticker,
    pub amount: Balance,
}

/// Free text attached to a receipt.
#[derive(Clone, Debug)]
pub struct ReceiptMetadata(pub Vec<u8>);

/// A receipt as presented by an affirming party.
#[derive(Clone, Debug)]
pub struct ReceiptDetails {
    /// Unique number set by the signer for its receipts.
    pub receipt_uid: u64,
    /// The leg that the receipt settles.
    pub leg_id: LegId,
    /// The account that signed the receipt.
    pub signer: AccountId,
    /// The SCALE-encoded `MultiSignature` over the receipt.
    pub signature: Vec<u8>,
    pub metadata: ReceiptMetadata,
}

/// A presented receipt as a value of specifications, with the runtime's verdict on its
/// signature.
pub struct ReceiptDetailsView {
    pub receipt_uid: u64,
    pub leg_id: LegId,
    pub signer: AccountId,
    pub signature_ok: bool,
}

/// Receipt `r` with the verdict `ok` on its signature.
pub open spec fn checked(r: ReceiptDetails, ok: bool) -> ReceiptDetailsView {
    ReceiptDetailsView { receipt_uid: r.receipt_uid, leg_id: r.leg_id, signer: r.signer, signature_ok: ok }
}

/// The number of fungible and of non-fungible transfers in a set of legs.
#[derive(Clone, Copy, Debug, PartialEq, Eq, Structural)]
pub struct TransferData {
    pub fungible: u32,
    pub non_fungible: u32,
}

impl TransferData {
    pub fn new(fungible: u32, non_fungible: u32) -> (r: TransferData)
        ensures
            r == (TransferData { fungible, non_fungible }),
    {
        TransferData { fungible, non_fungible }
    }

    pub fn fungible(&self) -> (r: u32)
        ensures
            r == self.fungible,
    {
        self.fungible
    }

    pub fn non_fungible(&self) -> (r: u32)
        ensures
            r == self.non_fungible,
    {
        self.non_fungible
    }
}

/// Errors of the settlement engine.
#[derive(Clone, Copy, Debug, PartialEq, Eq, Structural)]
pub enum SettlementError {
    InvalidVenue,
    Unauthorized,
    NoPendingAffirm,
    InstructionNotAffirmed,
    InstructionNotPending,
    InstructionNotFailed,
    LegNotPending,
    UnauthorizedSigner,
    ReceiptAlreadyClaimed,
    ReceiptNotClaimed,
    UnauthorizedVenue,
    FailedToLockTokens,
    FailedToUnlockTokens,
    InstructionFailed,
    InstructionDatesInvalid,
    InstructionSettleBlockPassed,
    InvalidSignature,
    SameSenderReceiver,
    PortfolioMismatch,
    SettleOnPastBlock,
    NoPortfolioProvided,
    UnexpectedAffirmationStatus,
    FailedToSchedule,
    LegCountTooSmall,
    UnknownInstruction,
    InstructionHasTooManyLegs,
    SignerAlreadyExists,
    SignerDoesNotExist,
    ZeroAmount,
    InstructionSettleBlockNotReached,
    CallerIsNotAParty,
    InvalidLegAsset,
    MaxNumberOfNFTsExceeded,
    MaxNumberOfNFTsPerLegExceeded,
    NumberOfTransferredNFTsUnderestimated,
    DeprecatedCallOnV2Instruction,
    ReceiptForNonFungibleAsset,
    DuplicateNFT,
    DetailsTooLong,
    CounterOverflow,
}

impl TableKey for Ticker {
    fn same(&self, other: &Self) -> (r: bool) {
        *self == *other
    }
}

impl TableKey for PortfolioId {
    fn same(&self, other: &Self) -> (r: bool) {
        *self == *other
    }
}

impl TableKey for AccountId {
    fn same(&self, other: &Self) -> (r: bool) {
        *self == *other
    }
}

impl TableKey for VenueId {
    fn same(&self, other: &Self) -> (r: bool) {
        *self == *other
    }
}

} // verus!

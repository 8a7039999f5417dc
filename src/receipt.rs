//! Off-chain receipts: the bytes a signer signs, and the check of its signature.
use crate::types::{AccountId, PortfolioId, PortfolioKind, Receipt};
use parity_scale_codec::{Decode, Encode};
use sp_runtime::traits::Verify;
use sp_runtime::{AccountId32, MultiSignature};
use vstd::prelude::*;

verus! {

/// The `n` low bytes of `v`, least significant first.
pub open spec fn le_bytes(v: nat, n: nat) -> Seq<u8>
    decreases n,
{
    if n == 0 {
        Seq::empty()
    } else {
        seq![(v % 256) as u8] + le_bytes(v / 256, (n - 1) as nat)
    }
}

/// The SCALE encoding of an `Option<u64>`: a tag byte, then the value.
pub open spec fn option_bytes(o: Option<u64>) -> Seq<u8> {
    match o {
        None => seq![0u8],
        Some(v) => seq![1u8] + le_bytes(v as nat, 8),
    }
}

/// The number of a user portfolio; none for the default portfolio.
pub open spec fn kind_number(k: PortfolioKind) -> Option<u64> {
    match k {
        PortfolioKind::Default => None,
        PortfolioKind::User(n) => Some(n),
    }
}

pub open spec fn portfolio_number(p: PortfolioId) -> Option<u64> {
    kind_number(p.kind)
}

/// The message of a receipt: its fields in order, SCALE-encoded.
pub open spec fn receipt_bytes(r: Receipt) -> Seq<u8> {
    le_bytes(r.receipt_uid as nat, 8) + le_bytes(r.from.did.0 as nat, 8) + option_bytes(
        portfolio_number(r.from),
    ) + le_bytes(r.to.did.0 as nat, 8) + option_bytes(portfolio_number(r.to)) + le_bytes(
        r.asset.0 as nat,
        16,
    ) + le_bytes(r.amount as nat, 16)
}

/// Relies on parity-scale-codec's `Encode` for a tuple of `u64`, `Option<u64>` and `u128`
/// values: each field in order, integers little-endian, an option as a tag byte and its value.
#[verifier::external_body]
fn scale_encode(
    uid: u64,
    from_did: u64,
    from_number: Option<u64>,
    to_did: u64,
    to_number: Option<u64>,
    ticker: u128,
    amount: u128,
) -> (r: Vec<u8>)
    ensures
        r@ == le_bytes(uid as nat, 8) + le_bytes(from_did as nat, 8) + option_bytes(from_number)
            + le_bytes(to_did as nat, 8) + option_bytes(to_number) + le_bytes(ticker as nat, 16)
            + le_bytes(amount as nat, 16),
{
    (uid, from_did, from_number, to_did, to_number, ticker, amount).encode()
}

#[verifier::external_type_specification]
#[verifier::external_body]
pub struct ExMultiSignature(MultiSignature);

/// Relies on parity-scale-codec's `Decode` for sp-runtime's `MultiSignature`: a variant byte,
/// then the signature's 64 (ed25519, sr25519) or 65 (ecdsa) bytes; so a decoded signature
/// needs at least 65 bytes.
#[verifier::external_body]
fn decode_signature(bytes: &Vec<u8>) -> (r: Option<MultiSignature>)
    ensures
        r is Some ==> bytes@.len() >= 65,
{
    MultiSignature::decode(&mut &bytes[..]).ok()
}

/// Relies on sp-runtime's `Verify::verify` for `MultiSignature`, against the 32-byte account.
/// Its outcome may depend on the calling context (which ed25519 verifier the externalities
/// select), so nothing is promised of it.
#[verifier::external_body]
fn verify_signature(sig: &MultiSignature, msg: &Vec<u8>, signer: AccountId) -> (r: bool) {
    let mut key = [0u8; 32];
    key[..16].copy_from_slice(&signer.high.to_be_bytes());
    key[16..].copy_from_slice(&signer.low.to_be_bytes());
    sig.verify(&msg[..], &AccountId32::new(key))
}

impl PortfolioKind {
    /// The number of a user portfolio; none for the default portfolio.
    pub fn number(&self) -> (r: Option<u64>)
        ensures
            r == kind_number(*self),
    {
        match self {
            PortfolioKind::Default => None,
            PortfolioKind::User(n) => Some(*n),
        }
    }
}

impl Receipt {
    /// The bytes that the signer of this receipt signs.
    pub fn message(&self) -> (r: Vec<u8>)
        ensures
            r@ == receipt_bytes(*self),
    {
        scale_encode(
            self.receipt_uid,
            self.from.did.0,
            self.from.kind.number(),
            self.to.did.0,
            self.to.kind.number(),
            self.asset.0,
            self.amount,
        )
    }

    /// Whether `sig`, a SCALE-encoded `MultiSignature`, signs `self.message()` for `signer`.
    /// The verdict is the runtime's, and depends on its context.
    pub fn is_signed_by(&self, sig: &Vec<u8>, signer: AccountId) -> (r: bool)
        ensures
            r ==> sig@.len() >= 65,
    {
        let msg = self.message();
        match decode_signature(sig) {
            Some(s) => verify_signature(&s, &msg, signer),
            None => false,
        }
    }
}

} // verus!

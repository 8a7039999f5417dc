use parity_scale_codec::Encode;
use settlement::settlement::{get_transfer_by_asset, Event, Settlement, SettlementConfig};
use settlement::types::{
    AccountId, AffirmationStatus, IdentityId, InstructionId,
    InstructionStatus, Leg, LegAsset, LegId, LegStatus, LegV2, PortfolioId, Receipt,
    ReceiptDetails, ReceiptMetadata, SettlementError, SettlementType, Ticker, VenueDetails,
    VenueId, VenueType, NFTs,
};
use sp_runtime::app_crypto::sp_core::ed25519;
use sp_runtime::app_crypto::{ByteArray, Pair};
use sp_runtime::MultiSignature;

const ALICE: IdentityId = IdentityId(1);
const BOB: IdentityId = IdentityId(2);
const CHARLIE: IdentityId = IdentityId(3);

fn ticker(s: &str) -> Ticker {
    let bytes = s.as_bytes();
    let mut v: u128 = 0;
    for i in 0..12 {
        v = (v << 8) | (*bytes.get(i).unwrap_or(&0) as u128);
    }
    Ticker(v)
}

fn config() -> SettlementConfig {
    SettlementConfig { max_fungible_legs: 10, max_nfts_per_leg: 10, max_nfts: 100, max_details_len: 64 }
}

fn engine() -> Settlement {
    Settlement::new(config(), 1, 1_000)
}

fn default(did: IdentityId) -> PortfolioId {
    PortfolioId::default_portfolio(did)
}

fn fungible(from: IdentityId, to: IdentityId, t: Ticker, amount: u128) -> LegV2 {
    LegV2 { from: default(from), to: default(to), asset: LegAsset::Fungible { ticker: t, amount } }
}

fn venue(s: &mut Settlement, did: IdentityId, signers: Vec<AccountId>) -> VenueId {
    s.create_venue(did, VenueDetails(b"venue".to_vec()), signers, VenueType::Distribution).unwrap()
}

/// Runs every execution that the scheduler has due at the next block.
fn next_block(s: &mut Settlement) {
    assert!(s.advance_block(2_000));
    for id in s.due_instructions() {
        s.execute_scheduled_instruction(id);
    }
}

fn account_of(pair: &ed25519::Pair) -> AccountId {
    let raw = pair.public().to_raw_vec();
    let mut high = [0u8; 16];
    let mut low = [0u8; 16];
    high.copy_from_slice(&raw[..16]);
    low.copy_from_slice(&raw[16..]);
    AccountId { high: u128::from_be_bytes(high), low: u128::from_be_bytes(low) }
}

fn sign(pair: &ed25519::Pair, msg: &[u8]) -> Vec<u8> {
    MultiSignature::from(pair.sign(msg)).encode()
}

#[test]
fn distribution_venue_settles_on_affirmation() {
    let acme = ticker("ACME");
    let mut s = engine();
    assert!(s.deposit(default(ALICE), acme, 1_000));
    let v = venue(&mut s, ALICE, vec![]);
    let id = s
        .add_instruction_with_memo_v2(ALICE, v, SettlementType::SettleOnAffirmation, None, None, vec![fungible(ALICE, BOB, acme, 500)], None)
        .unwrap();
    assert_eq!(id, InstructionId(1));
    assert_eq!(s.instruction_affirms_pending(id), 2);
    s.affirm_instruction(BOB, id, vec![default(BOB)], 0).unwrap();
    assert_eq!(s.instruction_affirms_pending(id), 1);
    s.affirm_instruction(ALICE, id, vec![default(ALICE)], 1).unwrap();
    assert_eq!(s.instruction_leg_status(id, LegId(0)), LegStatus::ExecutionPending);
    assert_eq!(s.instruction_affirms_pending(id), 0);
    assert_eq!(s.scheduled_at(id), Some(2));
    assert_eq!(s.ledger().holding(default(ALICE), acme).locked, 500);
    next_block(&mut s);
    assert_eq!(s.ledger().balance(default(BOB), acme), 500);
    assert_eq!(s.ledger().balance(default(ALICE), acme), 500);
    assert_eq!(s.ledger().holding(default(ALICE), acme).locked, 0);
    assert_eq!(s.instruction_status(id), InstructionStatus::Success(2));
    assert_eq!(s.instruction_details(id), None);
    assert!(s.get_instruction_legs(id).is_empty());
    assert_eq!(s.user_affirmations(default(ALICE), id), AffirmationStatus::Unknown);
    assert!(s.events().contains(&Event::InstructionExecuted(id)));
}

#[test]
fn failed_leg_rolls_back_every_transfer() {
    let acme = ticker("ACME");
    let beta = ticker("BETA");
    let mut s = engine();
    assert!(s.deposit(default(ALICE), acme, 100));
    assert!(s.deposit(default(BOB), beta, 100));
    let v = venue(&mut s, ALICE, vec![]);
    let id = s
        .add_instruction_with_memo_v2(
            ALICE, v, SettlementType::SettleManual(1), None, None,
            vec![fungible(ALICE, BOB, acme, 50), fungible(BOB, CHARLIE, beta, 60), fungible(BOB, ALICE, beta, 30)],
            None,
        )
        .unwrap();
    s.affirm_instruction(ALICE, id, vec![default(ALICE)], 1).unwrap();
    s.affirm_instruction(BOB, id, vec![default(BOB)], 2).unwrap();
    s.affirm_instruction(CHARLIE, id, vec![default(CHARLIE)], 0).unwrap();
    assert_eq!(s.ledger().holding(default(BOB), beta).locked, 90);
    // Charlie may hold at most 25 BETA: the second leg fails after the first has moved ACME.
    s.set_holding_limit(beta, 25);
    assert_eq!(s.execute_manual_instruction(ALICE, id, 3, None), Err(SettlementError::InstructionFailed));
    assert_eq!(s.instruction_status(id), InstructionStatus::Pending);
    // A scheduled run of the same execution marks the instruction failed and moves nothing.
    s.execute_scheduled_instruction(id);
    assert_eq!(s.instruction_status(id), InstructionStatus::Failed);
    assert_eq!(s.ledger().balance(default(ALICE), acme), 100);
    assert_eq!(s.ledger().balance(default(BOB), acme), 0);
    assert_eq!(s.ledger().balance(default(BOB), beta), 100);
    assert_eq!(s.ledger().balance(default(CHARLIE), beta), 0);
    assert_eq!(s.ledger().holding(default(ALICE), acme).locked, 50);
    assert!(s.events().contains(&Event::LegFailedExecution(id, LegId(1))));
}

#[test]
fn pending_affirmations_block_execution() {
    let acme = ticker("ACME");
    let mut s = engine();
    assert!(s.deposit(default(ALICE), acme, 100));
    let v = venue(&mut s, ALICE, vec![]);
    let id = s
        .add_instruction(ALICE, v, SettlementType::SettleManual(1), None, None, vec![Leg { from: default(ALICE), to: default(BOB), asset: acme, amount: 10 }])
        .unwrap();
    s.affirm_instruction(ALICE, id, vec![default(ALICE)], 1).unwrap();
    assert_eq!(s.instruction_affirms_pending(id), 1);
    for _ in 0..3 {
        assert!(s.advance_block(5_000));
        assert_eq!(s.execute_manual_instruction(ALICE, id, 1, None), Err(SettlementError::InstructionFailed));
    }
    assert_eq!(s.ledger().balance(default(BOB), acme), 0);
}

#[test]
fn legs_execute_in_leg_id_order() {
    let acme = ticker("ACME");
    let mut s = engine();
    assert!(s.deposit(default(ALICE), acme, 10));
    assert!(s.deposit(default(BOB), acme, 10));
    s.set_holding_limit(acme, 10);
    let v = venue(&mut s, ALICE, vec![]);
    // Alice first gives 5 to Charlie, then receives 5 from Bob: never above 10.
    let good = s
        .add_instruction_with_memo_v2(ALICE, v, SettlementType::SettleManual(1), None, None, vec![fungible(ALICE, CHARLIE, acme, 5), fungible(BOB, ALICE, acme, 5)], None)
        .unwrap();
    // The same legs in the other order would take Alice to 15 first.
    let bad = s
        .add_instruction_with_memo_v2(ALICE, v, SettlementType::SettleManual(1), None, None, vec![fungible(BOB, ALICE, acme, 5), fungible(ALICE, CHARLIE, acme, 5)], None)
        .unwrap();
    for id in [good, bad] {
        s.affirm_instruction(ALICE, id, vec![default(ALICE)], 1).unwrap();
        s.affirm_instruction(BOB, id, vec![default(BOB)], 1).unwrap();
        s.affirm_instruction(CHARLIE, id, vec![default(CHARLIE)], 0).unwrap();
    }
    assert_eq!(s.execute_manual_instruction(ALICE, bad, 2, None), Err(SettlementError::InstructionFailed));
    assert_eq!(s.reject_instruction(ALICE, bad, default(ALICE), 2), Ok(()));
    assert_eq!(s.execute_manual_instruction(ALICE, good, 2, None), Ok(()));
    assert_eq!(s.ledger().balance(default(ALICE), acme), 10);
    assert_eq!(s.ledger().balance(default(BOB), acme), 5);
    assert_eq!(s.ledger().balance(default(CHARLIE), acme), 5);
}

#[test]
fn receipt_is_single_use_until_unclaimed() {
    let off = ticker("OFFCHAIN");
    let pair = ed25519::Pair::from_seed(&[7u8; 32]);
    let signer = account_of(&pair);
    let mut s = engine();
    let v = venue(&mut s, ALICE, vec![signer]);
    let legs = vec![fungible(ALICE, BOB, off, 40)];
    let first = s.add_instruction_with_memo_v2(ALICE, v, SettlementType::SettleOnAffirmation, None, None, legs.clone(), None).unwrap();
    let second = s.add_instruction_with_memo_v2(ALICE, v, SettlementType::SettleOnAffirmation, None, None, legs, None).unwrap();
    let receipt = Receipt { receipt_uid: 9, from: default(ALICE), to: default(BOB), asset: off, amount: 40 };
    let details = ReceiptDetails {
        receipt_uid: 9,
        leg_id: LegId(0),
        signer,
        signature: sign(&pair, &receipt.message()),
        metadata: ReceiptMetadata(vec![]),
    };
    s.affirm_with_receipts(ALICE, first, vec![details.clone()], vec![default(ALICE)], 1).unwrap();
    assert_eq!(s.instruction_leg_status(first, LegId(0)), LegStatus::ExecutionToBeSkipped(signer, 9));
    assert!(s.receipts_used(signer, 9));
    assert_eq!(s.ledger().holding(default(ALICE), off).locked, 0);
    assert_eq!(
        s.affirm_with_receipts(ALICE, second, vec![details.clone()], vec![default(ALICE)], 1),
        Err(SettlementError::ReceiptAlreadyClaimed)
    );
    s.withdraw_affirmation(ALICE, first, vec![default(ALICE)], 1).unwrap();
    assert!(!s.receipts_used(signer, 9));
    assert_eq!(s.instruction_leg_status(first, LegId(0)), LegStatus::PendingTokenLock);
    assert_eq!(s.affirm_with_receipts(ALICE, second, vec![details], vec![default(ALICE)], 1), Ok(()));
}

#[test]
fn receipt_with_a_wrong_signature_is_refused() {
    let off = ticker("OFFCHAIN");
    let pair = ed25519::Pair::from_seed(&[7u8; 32]);
    let signer = account_of(&pair);
    let mut s = engine();
    let v = venue(&mut s, ALICE, vec![signer]);
    let id = s.add_instruction_with_memo_v2(ALICE, v, SettlementType::SettleOnAffirmation, None, None, vec![fungible(ALICE, BOB, off, 40)], None).unwrap();
    let other = Receipt { receipt_uid: 9, from: default(ALICE), to: default(BOB), asset: off, amount: 41 };
    let details = ReceiptDetails {
        receipt_uid: 9,
        leg_id: LegId(0),
        signer,
        signature: sign(&pair, &other.message()),
        metadata: ReceiptMetadata(vec![]),
    };
    assert_eq!(s.affirm_with_receipts(ALICE, id, vec![details], vec![default(ALICE)], 1), Err(SettlementError::InvalidSignature));
    assert!(!s.receipts_used(signer, 9));
}

#[test]
fn receipts_are_checked_before_an_empty_affirmation() {
    let off = ticker("OFFCHAIN");
    let signer = AccountId { high: 1, low: 1 };
    let mut s = engine();
    let v = venue(&mut s, ALICE, vec![signer]);
    let id = s.add_instruction_with_memo_v2(ALICE, v, SettlementType::SettleOnAffirmation, None, None, vec![fungible(ALICE, BOB, off, 40)], None).unwrap();
    let r = |uid: u64, who: AccountId| ReceiptDetails { receipt_uid: uid, leg_id: LegId(0), signer: who, signature: vec![0; 65], metadata: ReceiptMetadata(vec![]) };
    assert_eq!(s.base_affirm_with_receipts(ALICE, id, vec![r(1, signer), r(1, signer)], vec![], 1), Err(SettlementError::ReceiptAlreadyClaimed));
    assert_eq!(s.base_affirm_with_receipts(ALICE, id, vec![r(1, AccountId { high: 2, low: 2 })], vec![], 1), Err(SettlementError::UnauthorizedSigner));
    s.change_receipt_validity(signer, 1, false);
    assert_eq!(s.base_affirm_with_receipts(ALICE, id, vec![r(1, signer)], vec![], 1), Err(SettlementError::ReceiptAlreadyClaimed));
    assert_eq!(s.base_affirm_with_receipts(ALICE, id, vec![r(2, signer)], vec![default(ALICE)], 1), Err(SettlementError::InvalidSignature));
    assert_eq!(
        s.affirm_with_checked_receipts(ALICE, id, vec![r(2, signer)], vec![true], vec![default(ALICE)], 1),
        Ok(1)
    );
    assert!(s.receipts_used(signer, 2));
}

#[test]
fn receipt_message_is_the_scale_encoding() {
    let r = Receipt {
        receipt_uid: 1,
        from: PortfolioId::default_portfolio(IdentityId(2)),
        to: PortfolioId::user_portfolio(IdentityId(3), 4),
        asset: Ticker(5),
        amount: 6,
    };
    let mut expected = vec![1, 0, 0, 0, 0, 0, 0, 0, 2, 0, 0, 0, 0, 0, 0, 0, 0, 3, 0, 0, 0, 0, 0, 0, 0, 1, 4, 0, 0, 0, 0, 0, 0, 0];
    expected.extend_from_slice(&[5, 0, 0, 0, 0, 0, 0, 0, 0, 0, 0, 0, 0, 0, 0, 0]);
    expected.extend_from_slice(&[6, 0, 0, 0, 0, 0, 0, 0, 0, 0, 0, 0, 0, 0, 0, 0]);
    assert_eq!(r.message(), expected);
}

#[test]
fn failed_instruction_can_be_rescheduled_again_and_again() {
    let acme = ticker("ACME");
    let mut s = engine();
    assert!(s.deposit(default(ALICE), acme, 100));
    s.set_holding_limit(acme, 50);
    let v = venue(&mut s, ALICE, vec![]);
    let id = s.add_instruction_with_memo_v2(ALICE, v, SettlementType::SettleOnAffirmation, None, None, vec![fungible(ALICE, BOB, acme, 60)], None).unwrap();
    s.affirm_instruction(BOB, id, vec![default(BOB)], 0).unwrap();
    s.affirm_instruction(ALICE, id, vec![default(ALICE)], 1).unwrap();
    next_block(&mut s);
    assert_eq!(s.instruction_status(id), InstructionStatus::Failed);
    for _ in 0..3 {
        assert_eq!(s.reschedule_instruction(ALICE, id), Ok(()));
        assert_eq!(s.instruction_status(id), InstructionStatus::Pending);
        assert_eq!(s.scheduled_at(id), Some(s.block_number() + 1));
        next_block(&mut s);
        assert_eq!(s.instruction_status(id), InstructionStatus::Failed);
    }
    assert_eq!(s.reschedule_instruction(ALICE, id), Ok(()));
    s.set_holding_limit(acme, 100);
    next_block(&mut s);
    assert!(matches!(s.instruction_status(id), InstructionStatus::Success(_)));
    assert_eq!(s.ledger().balance(default(BOB), acme), 60);
    assert_eq!(s.reschedule_instruction(ALICE, id), Err(SettlementError::InstructionNotFailed));
}

#[test]
fn enabling_venue_filtering_fails_execution_not_creation() {
    let acme = ticker("ACME");
    let mut s = engine();
    s.create_asset(ALICE, acme).unwrap();
    assert!(s.deposit(default(ALICE), acme, 100));
    let v = venue(&mut s, ALICE, vec![]);
    let id = s.add_instruction_with_memo_v2(ALICE, v, SettlementType::SettleManual(1), None, None, vec![fungible(ALICE, BOB, acme, 10)], None).unwrap();
    s.affirm_instruction(ALICE, id, vec![default(ALICE)], 1).unwrap();
    s.affirm_instruction(BOB, id, vec![default(BOB)], 0).unwrap();
    assert_eq!(s.set_venue_filtering(BOB, acme, true), Err(SettlementError::Unauthorized));
    s.set_venue_filtering(ALICE, acme, true).unwrap();
    assert_eq!(s.execute_manual_instruction(ALICE, id, 1, None), Err(SettlementError::UnauthorizedVenue));
    // A new instruction is refused at creation.
    assert_eq!(
        s.add_instruction_with_memo_v2(ALICE, v, SettlementType::SettleManual(1), None, None, vec![fungible(ALICE, BOB, acme, 10)], None),
        Err(SettlementError::UnauthorizedVenue)
    );
    s.allow_venues(ALICE, acme, vec![v]).unwrap();
    assert!(s.venue_allow_list(acme, v));
    assert_eq!(s.execute_manual_instruction(ALICE, id, 1, None), Ok(()));
    assert_eq!(s.ledger().balance(default(BOB), acme), 10);
}

#[test]
fn instruction_creation_errors() {
    let acme = ticker("ACME");
    let mut s = engine();
    let v = venue(&mut s, ALICE, vec![]);
    let leg = vec![fungible(ALICE, BOB, acme, 10)];
    let add = |s: &mut Settlement, did, v, st, t, val, legs: Vec<LegV2>| s.add_instruction_with_memo_v2(did, v, st, t, val, legs, None);
    assert_eq!(add(&mut s, ALICE, v, SettlementType::SettleOnBlock(1), None, None, leg.clone()), Err(SettlementError::SettleOnPastBlock));
    assert_eq!(add(&mut s, ALICE, v, SettlementType::SettleOnAffirmation, Some(5), Some(4), leg.clone()), Err(SettlementError::InstructionDatesInvalid));
    assert_eq!(add(&mut s, ALICE, VenueId(9), SettlementType::SettleOnAffirmation, None, None, leg.clone()), Err(SettlementError::InvalidVenue));
    assert_eq!(add(&mut s, BOB, v, SettlementType::SettleOnAffirmation, None, None, leg.clone()), Err(SettlementError::Unauthorized));
    assert_eq!(add(&mut s, ALICE, v, SettlementType::SettleOnAffirmation, None, None, vec![fungible(ALICE, ALICE, acme, 1)]), Err(SettlementError::SameSenderReceiver));
    assert_eq!(add(&mut s, ALICE, v, SettlementType::SettleOnAffirmation, None, None, vec![fungible(ALICE, BOB, acme, 0)]), Err(SettlementError::ZeroAmount));
    let many = (0..11).map(|_| fungible(ALICE, BOB, acme, 1)).collect::<Vec<_>>();
    assert_eq!(add(&mut s, ALICE, v, SettlementType::SettleOnAffirmation, None, None, many), Err(SettlementError::InstructionHasTooManyLegs));
    let nft = |ids: Vec<u64>| LegV2 { from: default(ALICE), to: default(BOB), asset: LegAsset::NonFungible(NFTs { ticker: acme, ids }) };
    assert_eq!(add(&mut s, ALICE, v, SettlementType::SettleOnAffirmation, None, None, vec![nft((0..11).collect())]), Err(SettlementError::MaxNumberOfNFTsPerLegExceeded));
    assert_eq!(add(&mut s, ALICE, v, SettlementType::SettleOnAffirmation, None, None, vec![nft(vec![1, 2, 1])]), Err(SettlementError::DuplicateNFT));
    let lots = (0..11).map(|i| nft((i * 10..i * 10 + 10).collect())).collect::<Vec<_>>();
    assert_eq!(add(&mut s, ALICE, v, SettlementType::SettleOnAffirmation, None, None, lots), Err(SettlementError::MaxNumberOfNFTsExceeded));
    assert_eq!(s.instruction_status(InstructionId(1)), InstructionStatus::Unknown);
    let id = add(&mut s, ALICE, v, SettlementType::SettleOnBlock(5), Some(4), Some(5), leg).unwrap();
    assert_eq!(id, InstructionId(1));
    assert_eq!(s.scheduled_at(id), Some(5));
}

#[test]
fn affirmation_errors() {
    let acme = ticker("ACME");
    let mut s = engine();
    assert!(s.deposit(default(ALICE), acme, 5));
    let v = venue(&mut s, ALICE, vec![]);
    let id = s.add_instruction_with_memo_v2(ALICE, v, SettlementType::SettleOnAffirmation, None, None, vec![fungible(ALICE, BOB, acme, 10)], None).unwrap();
    assert_eq!(s.affirm_instruction(ALICE, InstructionId(7), vec![default(ALICE)], 1), Err(SettlementError::UnknownInstruction));
    assert_eq!(s.affirm_instruction(ALICE, id, vec![], 1), Ok(()));
    assert_eq!(s.instruction_affirms_pending(id), 2);
    assert_eq!(s.affirm_instruction(BOB, id, vec![default(ALICE)], 1), Err(SettlementError::Unauthorized));
    assert_eq!(s.affirm_instruction(CHARLIE, id, vec![default(CHARLIE)], 1), Err(SettlementError::UnexpectedAffirmationStatus));
    assert_eq!(s.affirm_instruction(ALICE, id, vec![default(ALICE)], 0), Err(SettlementError::LegCountTooSmall));
    assert_eq!(s.affirm_instruction(ALICE, id, vec![default(ALICE)], 1), Err(SettlementError::FailedToLockTokens));
    assert_eq!(s.ledger().holding(default(ALICE), acme).locked, 0);
    assert!(s.deposit(default(ALICE), acme, 5));
    assert_eq!(s.affirm_instruction(ALICE, id, vec![default(ALICE), default(ALICE)], 1), Ok(()));
    assert_eq!(s.instruction_affirms_pending(id), 1);
    assert_eq!(s.affirm_instruction(ALICE, id, vec![default(ALICE)], 1), Err(SettlementError::UnexpectedAffirmationStatus));
    assert_eq!(s.withdraw_affirmation(BOB, id, vec![default(BOB)], 1), Err(SettlementError::UnexpectedAffirmationStatus));
    assert_eq!(s.withdraw_affirmation(ALICE, id, vec![default(ALICE)], 1), Ok(()));
    assert_eq!(s.ledger().holding(default(ALICE), acme).locked, 0);
    assert_eq!(s.instruction_affirms_pending(id), 2);
}

#[test]
fn non_fungible_legs_lock_and_move_tokens() {
    let art = ticker("ART");
    let mut s = engine();
    assert!(s.mint_nft(default(ALICE), art, 1));
    assert!(s.mint_nft(default(ALICE), art, 2));
    assert!(!s.mint_nft(default(BOB), art, 2));
    let v = venue(&mut s, ALICE, vec![]);
    let leg = LegV2 { from: default(ALICE), to: default(BOB), asset: LegAsset::NonFungible(NFTs { ticker: art, ids: vec![1, 2] }) };
    let id = s.add_instruction_with_memo_v2(ALICE, v, SettlementType::SettleManual(1), None, None, vec![leg], None).unwrap();
    assert_eq!(s.affirm_instruction(ALICE, id, vec![default(ALICE)], 0), Err(SettlementError::DeprecatedCallOnV2Instruction));
    assert_eq!(s.affirm_instruction_v2(ALICE, id, vec![default(ALICE)], 0, 1), Err(SettlementError::NumberOfTransferredNFTsUnderestimated));
    assert_eq!(s.affirm_instruction_v2(ALICE, id, vec![default(ALICE)], 0, 2), Ok(()));
    assert!(s.ledger().nft(art, 1).unwrap().locked);
    s.affirm_instruction_v2(BOB, id, vec![default(BOB)], 0, 0).unwrap();
    assert_eq!(s.execute_manual_instruction(BOB, id, 1, Some(default(BOB))), Ok(()));
    assert_eq!(s.ledger().nft(art, 1).unwrap().owner, default(BOB));
    assert!(!s.ledger().nft(art, 2).unwrap().locked);
}

#[test]
fn rejection_releases_locks_and_prunes() {
    let acme = ticker("ACME");
    let mut s = engine();
    assert!(s.deposit(default(ALICE), acme, 100));
    let v = venue(&mut s, ALICE, vec![]);
    let id = s.add_instruction_with_memo_v2(ALICE, v, SettlementType::SettleOnAffirmation, None, None, vec![fungible(ALICE, BOB, acme, 30)], None).unwrap();
    s.affirm_instruction(ALICE, id, vec![default(ALICE)], 1).unwrap();
    assert_eq!(s.reject_instruction(CHARLIE, id, default(CHARLIE), 1), Err(SettlementError::CallerIsNotAParty));
    assert_eq!(s.reject_instruction(CHARLIE, id, default(BOB), 1), Err(SettlementError::Unauthorized));
    assert_eq!(s.reject_instruction(BOB, id, default(BOB), 0), Err(SettlementError::LegCountTooSmall));
    assert_eq!(s.reject_instruction(BOB, id, default(BOB), 1), Ok(()));
    assert_eq!(s.instruction_status(id), InstructionStatus::Rejected(1));
    assert_eq!(s.ledger().holding(default(ALICE), acme).locked, 0);
    assert_eq!(s.scheduled_at(id), None);
}

#[test]
fn add_and_affirm_is_one_step() {
    let acme = ticker("ACME");
    let mut s = engine();
    assert!(s.deposit(default(ALICE), acme, 10));
    let v = venue(&mut s, ALICE, vec![]);
    let legs = vec![Leg { from: default(ALICE), to: default(BOB), asset: acme, amount: 20 }];
    assert_eq!(
        s.add_and_affirm_instruction(ALICE, v, SettlementType::SettleOnAffirmation, None, None, legs, vec![default(ALICE)]),
        Err(SettlementError::FailedToLockTokens)
    );
    assert_eq!(s.instruction_status(InstructionId(1)), InstructionStatus::Unknown);
    let legs = vec![Leg { from: default(ALICE), to: default(BOB), asset: acme, amount: 10 }];
    assert_eq!(s.add_and_affirm_instruction(ALICE, v, SettlementType::SettleOnAffirmation, None, None, legs, vec![default(ALICE)]), Ok(()));
    assert_eq!(s.instruction_affirms_pending(InstructionId(1)), 1);
    assert_eq!(s.ledger().holding(default(ALICE), acme).locked, 10);
}

#[test]
fn venue_management() {
    let mut s = engine();
    let a = AccountId { high: 1, low: 2 };
    let b = AccountId { high: 3, low: 4 };
    let v = venue(&mut s, ALICE, vec![a]);
    assert_eq!(v, VenueId(1));
    assert_eq!(s.venue_info(v).unwrap().venue_type, VenueType::Distribution);
    assert_eq!(s.update_venue_type(BOB, v, VenueType::Exchange), Err(SettlementError::Unauthorized));
    assert_eq!(s.update_venue_type(ALICE, VenueId(2), VenueType::Exchange), Err(SettlementError::InvalidVenue));
    s.update_venue_type(ALICE, v, VenueType::Exchange).unwrap();
    assert_eq!(s.venue_info(v).unwrap().venue_type, VenueType::Exchange);
    assert_eq!(s.update_venue_details(ALICE, v, VenueDetails(vec![0; 65])), Err(SettlementError::DetailsTooLong));
    assert_eq!(s.update_venue_signers(ALICE, v, vec![b, a], true), Err(SettlementError::SignerAlreadyExists));
    assert!(!s.venue_signers(v, b));
    s.update_venue_signers(ALICE, v, vec![b], true).unwrap();
    assert!(s.venue_signers(v, b));
    assert_eq!(s.update_venue_signers(ALICE, v, vec![a, AccountId { high: 9, low: 9 }], false), Err(SettlementError::SignerDoesNotExist));
    s.update_venue_signers(ALICE, v, vec![a], false).unwrap();
    assert!(!s.venue_signers(v, a));
    s.change_receipt_validity(a, 5, false);
    assert!(s.receipts_used(a, 5));
    s.change_receipt_validity(a, 5, true);
    assert!(!s.receipts_used(a, 5));
    let w = venue(&mut s, BOB, vec![]);
    let x = venue(&mut s, ALICE, vec![]);
    assert_eq!(s.user_venues(ALICE), vec![v, x]);
    assert_eq!(s.user_venues(BOB), vec![w]);
    assert!(s.user_venues(CHARLIE).is_empty());
    let events = s.events();
    assert!(events.contains(&Event::VenueTypeUpdated(ALICE, v, VenueType::Exchange)));
    assert!(events.contains(&Event::VenueSignersUpdated(ALICE, v, true)));
    assert!(events.contains(&Event::ReceiptValidityChanged(a, 5, true)));
    assert!(!events.contains(&Event::VenueDetailsUpdated(ALICE, v)));
}

#[test]
fn leg_forms_convert() {
    let acme = ticker("ACME");
    let leg = Leg { from: default(ALICE), to: default(BOB), asset: acme, amount: 7 };
    let v2 = leg.to_v2();
    assert_eq!(v2.asset.ticker_and_amount(), (acme, 7));
    assert_eq!(Leg::try_from(v2), Ok(leg));
    let nft = LegV2 { from: default(ALICE), to: default(BOB), asset: LegAsset::NonFungible(NFTs { ticker: acme, ids: vec![1, 2, 3] }) };
    assert_eq!(nft.asset.ticker_and_amount(), (acme, 3));
    assert_eq!(get_transfer_by_asset(&vec![leg.to_v2(), nft.clone(), leg.to_v2()]), (2, 3));
    assert_eq!(Leg::try_from(nft), Err(SettlementError::InvalidLegAsset));
}

#[test]
fn affirm_and_execute_settles_at_once_or_not_at_all() {
    let acme = ticker("ACME");
    let mut s = engine();
    assert!(s.deposit(default(ALICE), acme, 100));
    let v = venue(&mut s, ALICE, vec![]);
    let first = s.add_instruction_with_memo_v2(ALICE, v, SettlementType::SettleOnAffirmation, None, None, vec![fungible(ALICE, BOB, acme, 10)], None).unwrap();
    let second = s.add_instruction_with_memo_v2(ALICE, v, SettlementType::SettleOnAffirmation, None, None, vec![fungible(ALICE, BOB, acme, 30)], None).unwrap();
    for id in [first, second] {
        s.affirm_instruction(BOB, id, vec![default(BOB)], 0).unwrap();
    }
    assert_eq!(s.affirm_and_execute_instruction(ALICE, first, None, vec![default(ALICE)], 1, None), Ok(()));
    assert_eq!(s.instruction_status(first), InstructionStatus::Success(1));
    assert_eq!(s.ledger().balance(default(BOB), acme), 10);
    s.set_holding_limit(acme, 20);
    assert_eq!(
        s.affirm_and_execute_instruction(ALICE, second, None, vec![default(ALICE)], 1, None),
        Err(SettlementError::InstructionFailed)
    );
    assert_eq!(s.instruction_status(second), InstructionStatus::Pending);
    assert_eq!(s.instruction_affirms_pending(second), 1);
    assert_eq!(s.user_affirmations(default(ALICE), second), AffirmationStatus::Pending);
    assert_eq!(s.ledger().holding(default(ALICE), acme).locked, 0);
    assert_eq!(s.ledger().balance(default(BOB), acme), 10);
}

#[test]
fn custodian_acts_for_a_portfolio() {
    let acme = ticker("ACME");
    let mut s = engine();
    assert!(s.deposit(default(ALICE), acme, 100));
    let v = venue(&mut s, ALICE, vec![]);
    let id = s.add_instruction_with_memo_v2(ALICE, v, SettlementType::SettleOnAffirmation, None, None, vec![fungible(ALICE, BOB, acme, 10)], None).unwrap();
    assert_eq!(s.set_custodian(BOB, default(ALICE), CHARLIE), Err(SettlementError::Unauthorized));
    s.set_custodian(ALICE, default(ALICE), CHARLIE).unwrap();
    assert_eq!(s.affirm_instruction(ALICE, id, vec![default(ALICE)], 1), Err(SettlementError::Unauthorized));
    assert_eq!(s.affirm_instruction(CHARLIE, id, vec![default(ALICE)], 1), Ok(()));
    assert_eq!(s.user_affirmations(default(ALICE), id), AffirmationStatus::Affirmed);
}

#[test]
fn receipts_and_venue_checks_are_reported() {
    let off = ticker("OFFCHAIN");
    let acme = ticker("ACME");
    let signer = AccountId { high: 5, low: 6 };
    let mut s = engine();
    s.create_asset(ALICE, acme).unwrap();
    assert!(s.deposit(default(ALICE), acme, 100));
    let v = venue(&mut s, ALICE, vec![signer]);
    let legs = vec![fungible(ALICE, BOB, off, 40), fungible(ALICE, BOB, acme, 10)];
    let id = s.add_instruction_with_memo_v2(ALICE, v, SettlementType::SettleOnAffirmation, None, None, legs, None).unwrap();
    let r = ReceiptDetails { receipt_uid: 3, leg_id: LegId(0), signer, signature: vec![], metadata: ReceiptMetadata(vec![]) };
    assert_eq!(s.affirm_with_checked_receipts(ALICE, id, vec![r], vec![true], vec![default(ALICE)], 2), Ok(2));
    assert!(s.events().contains(&Event::ReceiptClaimed(ALICE, id, LegId(0), 3, signer)));
    s.affirm_instruction(BOB, id, vec![default(BOB)], 0).unwrap();
    s.set_venue_filtering(ALICE, acme, true).unwrap();
    next_block(&mut s);
    assert_eq!(s.instruction_status(id), InstructionStatus::Failed);
    assert!(s.events().contains(&Event::VenueUnauthorized(acme, v)));
    assert_eq!(s.reject_instruction(BOB, id, default(BOB), 2), Ok(()));
    assert!(s.events().contains(&Event::ReceiptUnclaimed(id, LegId(0), 3, signer)));
    assert!(!s.receipts_used(signer, 3));
}

#[test]
fn affirm_and_execute_leaves_an_unfinished_instruction_pending() {
    let acme = ticker("ACME");
    let mut s = engine();
    assert!(s.deposit(default(ALICE), acme, 100));
    let v = venue(&mut s, ALICE, vec![]);
    let id = s.add_instruction_with_memo_v2(ALICE, v, SettlementType::SettleOnAffirmation, None, None, vec![fungible(ALICE, BOB, acme, 10)], None).unwrap();
    assert_eq!(s.affirm_and_execute_instruction(ALICE, id, None, vec![default(ALICE)], 1, None), Ok(()));
    assert_eq!(s.instruction_status(id), InstructionStatus::Pending);
    assert_eq!(s.instruction_affirms_pending(id), 1);
    assert_eq!(s.ledger().balance(default(BOB), acme), 0);
    assert_eq!(s.ledger().holding(default(ALICE), acme).locked, 10);
}

#[test]
fn signatures_are_checked_over_the_leg_receipt() {
    let off = ticker("OFFCHAIN");
    let pair = ed25519::Pair::from_seed(&[9u8; 32]);
    let signer = account_of(&pair);
    let mut s = engine();
    let v = venue(&mut s, ALICE, vec![signer]);
    let nft = LegV2 { from: default(ALICE), to: default(BOB), asset: LegAsset::NonFungible(NFTs { ticker: off, ids: vec![1] }) };
    let id = s
        .add_instruction_with_memo_v2(ALICE, v, SettlementType::SettleOnAffirmation, None, None, vec![fungible(ALICE, BOB, off, 40), nft], None)
        .unwrap();
    let expected = Receipt { receipt_uid: 4, from: default(ALICE), to: default(BOB), asset: off, amount: 40 };
    assert_eq!(s.leg_receipt_of(id, 4, LegId(0)), Some(expected));
    assert_eq!(s.leg_receipt_of(id, 4, LegId(1)), None);
    assert_eq!(s.leg_receipt_of(id, 4, LegId(2)), None);
    assert_eq!(s.leg_receipt_of(InstructionId(9), 4, LegId(0)), None);
    let swapped = Receipt { from: default(BOB), to: default(ALICE), ..expected };
    let r = |msg: &[u8]| ReceiptDetails {
        receipt_uid: 4,
        leg_id: LegId(0),
        signer,
        signature: sign(&pair, msg),
        metadata: ReceiptMetadata(vec![]),
    };
    assert_eq!(
        s.base_affirm_with_receipts(ALICE, id, vec![r(&swapped.message())], vec![default(ALICE)], 1),
        Err(SettlementError::InvalidSignature)
    );
    assert_eq!(s.base_affirm_with_receipts(ALICE, id, vec![r(&expected.message())], vec![default(ALICE)], 1), Err(SettlementError::DeprecatedCallOnV2Instruction));
}

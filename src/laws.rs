//! Properties of the settlement engine that hold across its operations.
use crate::portfolio::LedgerView;
use crate::settlement::{
    affirm_check, affirmed, after_scheduled_execution, dedup, execute_check, has_instruction,
    has_venue, instr, manual_check, mark_used, maybe_schedule, pending_of, portfolios_error,
    receipt_key, receipt_used, receipts_error, rescheduled, status_of, unclaim_receipts, valid_state,
    validity_check, venue_of, venue_may_move, withdraw_books, withdraw_check, withdrawn,
    AllowKey, ReceiptKey, SettlementView, Event, failed_leg, release_locks, transfer_pending,
    venue_blocked, counts_pending, pending_parties, lemma_portfolios_checked, lemma_dedup,
    lemma_dedup_len, lemma_set_statuses_count,
};
use crate::types::{
    AffirmationStatus, IdentityId, InstructionId, InstructionStatus, LegId, LegStatus, LegView,
    PortfolioId, ReceiptDetailsView, SettlementError, Ticker,
};
use vstd::prelude::*;

verus! {

/// A failed execution is atomic: when instruction `id` cannot execute (a transfer of one of
/// its legs would fail, or any other reason), the scheduled execution leaves every balance
/// and lock as it was, and a stored instruction is marked failed.
pub proof fn law_failed_execution_moves_nothing(s: SettlementView, id: InstructionId)
    requires
        valid_state(s),
        has_instruction(s, id),
        status_of(s, id) == InstructionStatus::Pending,
        execute_check(s, id) is Err,
    ensures
        after_scheduled_execution(s, id).ledger == s.ledger,
        status_of(after_scheduled_execution(s, id), id) == InstructionStatus::Failed,
{
    let s0 = SettlementView { scheduled: s.scheduled.remove(id), ..s };
    assert(execute_check(s0, id) == execute_check(s, id));
    assert(s.instructions[id.0 - 1].status is Pending);
}

/// An instruction that waits for affirmations cannot execute, by the scheduler or by hand,
/// however long it has existed: execution fails with `InstructionFailed` and moves nothing.
pub proof fn law_pending_affirmations_block_execution(s: SettlementView, id: InstructionId)
    requires
        pending_of(s, id) != 0,
    ensures
        execute_check(s, id) == Err::<(), SettlementError>(SettlementError::InstructionFailed),
        after_scheduled_execution(s, id).ledger == s.ledger,
        forall|did: IdentityId, legs_count: u32, p: Option<PortfolioId>|
            #[trigger] manual_check(s, did, id, legs_count, p) is Err,
{
    let s0 = SettlementView { scheduled: s.scheduled.remove(id), ..s };
    assert(execute_check(s0, id) == execute_check(s, id));
}

proof fn lemma_mark_used_contains(m: Map<ReceiptKey, bool>, rs: Seq<ReceiptDetailsView>, j: int, n: int)
    requires
        0 <= j < n <= rs.len(),
    ensures
        mark_used(m, rs, n).contains_key(receipt_key(rs[j])),
        mark_used(m, rs, n)[receipt_key(rs[j])],
    decreases n,
{
    if j < n - 1 {
        lemma_mark_used_contains(m, rs, j, n - 1);
    }
}

/// A receipt is used once: after an affirmation that claims receipt `rs[j]`, presenting a
/// receipt with the same signer and number fails with `ReceiptAlreadyClaimed`, wherever
/// the checks before it pass.
pub proof fn law_receipt_single_use(
    s: SettlementView,
    did: IdentityId,
    id: InstructionId,
    portfolios: Seq<PortfolioId>,
    rs: Seq<ReceiptDetailsView>,
    fungible: u32,
    nfts: Option<u32>,
    j: int,
    did2: IdentityId,
    id2: InstructionId,
    portfolios2: Seq<PortfolioId>,
    r2: ReceiptDetailsView,
    fungible2: u32,
)
    requires
        affirm_check(s, did, id, portfolios, rs, fungible, nfts) is Ok,
        0 <= j < rs.len(),
        receipt_key(r2) == receipt_key(rs[j]),
        ({
            let s2 = maybe_schedule(affirmed(s, did, id, portfolios, rs), id);
            let v2 = instr(s2, id2).details.unwrap().venue_id;
            &&& validity_check(s2, id2, false) is Ok
            &&& portfolios2.len() > 0
            &&& portfolios_error(s2, id2, dedup(portfolios2), did2, AffirmationStatus::Pending) is None
            &&& instr(s2, id2).details is Some
            &&& has_venue(s2, v2)
            &&& venue_of(s2, v2).signers.contains(r2.signer)
        }),
    ensures
        affirm_check(
            maybe_schedule(affirmed(s, did, id, portfolios, rs), id),
            did2,
            id2,
            portfolios2,
            seq![r2],
            fungible2,
            None,
        ) == Err::<(), SettlementError>(SettlementError::ReceiptAlreadyClaimed),
{
    let s1 = affirmed(s, did, id, portfolios, rs);
    let s2 = maybe_schedule(s1, id);
    lemma_mark_used_contains(s.receipts_used, rs, j, rs.len() as int);
    assert(s2.receipts_used == s1.receipts_used);
    assert(receipt_used(s2, receipt_key(r2)));
    assert(seq![r2].drop_last() =~= Seq::<ReceiptDetailsView>::empty());
    assert(seq![r2].last() == r2);
    assert(receipts_error(s2, id2, portfolios2.to_set(), Seq::<ReceiptDetailsView>::empty()) is None);
    assert(receipts_error(s2, id2, portfolios2.to_set(), seq![r2]) == Some(SettlementError::ReceiptAlreadyClaimed));
}

proof fn lemma_withdraw_unclaims(
    l: LedgerView,
    m: Map<ReceiptKey, bool>,
    legs: Seq<LegView>,
    st: Seq<LegStatus>,
    ps: Set<PortfolioId>,
    k: int,
    n: int,
    key: ReceiptKey,
)
    requires
        0 <= k < n,
        ps.contains(legs[k].from),
        st[k] == LegStatus::ExecutionToBeSkipped(key.signer, key.uid),
        withdraw_books(l, m, legs, st, ps, n) is Ok,
    ensures
        (withdraw_books(l, m, legs, st, ps, n)->Ok_0).1.contains_key(key),
        !(withdraw_books(l, m, legs, st, ps, n)->Ok_0).1[key],
    decreases n,
{
    if k < n - 1 {
        lemma_withdraw_unclaims(l, m, legs, st, ps, k, n - 1, key);
    }
}

/// Withdrawing an affirmation makes the receipts it claimed usable again.
pub proof fn law_withdrawal_unclaims_receipts(
    s: SettlementView,
    did: IdentityId,
    id: InstructionId,
    portfolios: Seq<PortfolioId>,
    fungible: u32,
    nfts: Option<u32>,
    k: int,
    key: ReceiptKey,
)
    requires
        withdraw_check(s, did, id, portfolios, fungible, nfts) is Ok,
        0 <= k < instr(s, id).legs.len(),
        portfolios.contains(instr(s, id).legs[k].from),
        instr(s, id).leg_status[k] == LegStatus::ExecutionToBeSkipped(key.signer, key.uid),
    ensures
        !receipt_used(withdrawn(s, did, id, portfolios), key),
{
    let i = instr(s, id);
    lemma_withdraw_unclaims(s.ledger, s.receipts_used, i.legs, i.leg_status, portfolios.to_set(), k, i.legs.len() as int, key);
}

proof fn lemma_unclaim(m: Map<ReceiptKey, bool>, st: Seq<LegStatus>, k: int, n: int, key: ReceiptKey)
    requires
        0 <= k < n <= st.len(),
        st[k] == LegStatus::ExecutionToBeSkipped(key.signer, key.uid),
    ensures
        unclaim_receipts(m, st, n).contains_key(key),
        !unclaim_receipts(m, st, n)[key],
    decreases n,
{
    if k < n - 1 {
        lemma_unclaim(m, st, k, n - 1, key);
    }
}

/// A failed transfer makes the receipts of the instruction usable again.
pub proof fn law_failed_transfer_unclaims_receipts(s: SettlementView, id: InstructionId, k: int, key: ReceiptKey)
    requires
        has_instruction(s, id),
        pending_of(s, id) == 0,
        status_of(s, id) == InstructionStatus::Pending,
        execute_check(s, id) == Err::<(), SettlementError>(SettlementError::InstructionFailed),
        0 <= k < instr(s, id).leg_status.len(),
        instr(s, id).leg_status[k] == LegStatus::ExecutionToBeSkipped(key.signer, key.uid),
    ensures
        !receipt_used(after_scheduled_execution(s, id), key),
{
    let s0 = SettlementView { scheduled: s.scheduled.remove(id), ..s };
    assert(execute_check(s0, id) == execute_check(s, id));
    let i = instr(s, id);
    lemma_unclaim(s.receipts_used, i.leg_status, k, i.leg_status.len() as int, key);
}

/// Rescheduling is a manual retry loop: a failed instruction can always be rescheduled,
/// which makes it pending; if its execution still fails, the scheduled run marks it failed
/// again, from where it can be rescheduled again.
pub proof fn law_reschedule_loop(s: SettlementView, did: IdentityId, id: InstructionId)
    requires
        valid_state(s),
        status_of(s, id) == InstructionStatus::Failed,
    ensures
        status_of(rescheduled(s, did, id), id) == InstructionStatus::Pending,
        valid_state(rescheduled(s, did, id)),
        execute_check(rescheduled(s, did, id), id) is Err ==> status_of(
            after_scheduled_execution(rescheduled(s, did, id), id),
            id,
        ) == InstructionStatus::Failed,
{
    let s2 = rescheduled(s, did, id);
    assert(s.instructions[id.0 - 1].status is Failed);
    assert forall|i: int| 0 <= i < s2.instructions.len() implies ((#[trigger] s2.instructions[i]).status is Pending
        || s2.instructions[i].status is Failed <==> s2.instructions[i].details is Some)
        && counts_pending(s2.instructions[i].affirmations, s2.instructions[i].affirms_pending) by {
        assert(s.instructions[i].status is Pending || s.instructions[i].status is Failed <==> s.instructions[i].details is Some);
        assert(counts_pending(s.instructions[i].affirmations, s.instructions[i].affirms_pending));
    }
    if execute_check(s2, id) is Err {
        let s0 = SettlementView { scheduled: s2.scheduled.remove(id), ..s2 };
        assert(execute_check(s0, id) == execute_check(s2, id));
    }
}

/// Venue filtering is checked again at execution: once an asset of a pending instruction
/// starts filtering venues without allowing the instruction's venue, its execution fails
/// with `UnauthorizedVenue` and moves nothing.
pub proof fn law_filtering_blocks_execution(s: SettlementView, t: Ticker, id: InstructionId, k: int)
    requires
        valid_state(s),
        has_instruction(s, id),
        pending_of(s, id) == 0,
        status_of(s, id) == InstructionStatus::Pending,
        0 <= k < instr(s, id).legs.len(),
        instr(s, id).legs[k].asset.ticker() == t,
        !s.allowed.contains(AllowKey { ticker: t, venue: instr(s, id).details.unwrap().venue_id }),
    ensures
        execute_check(SettlementView { filtering: s.filtering.insert(t), ..s }, id)
            == Err::<(), SettlementError>(SettlementError::UnauthorizedVenue),
        after_scheduled_execution(SettlementView { filtering: s.filtering.insert(t), ..s }, id).ledger == s.ledger,
        status_of(after_scheduled_execution(SettlementView { filtering: s.filtering.insert(t), ..s }, id), id)
            == InstructionStatus::Failed,
{
    let s2 = SettlementView { filtering: s.filtering.insert(t), ..s };
    let i = instr(s2, id);
    assert(!venue_may_move(s2, i.legs[k].asset.ticker(), i.details.unwrap().venue_id));
    assert(s.instructions[id.0 - 1].status is Pending);
    law_failed_execution_moves_nothing(s2, id);
}


/// Legs execute in leg-id order: an execution that succeeds leaves the ledger that
/// transferring the locked legs one after another, from leg 0 up, gives once the locks are
/// released; the first leg whose transfer fails in that order fails the whole execution.
pub proof fn law_execution_follows_leg_order(s: SettlementView, id: InstructionId)
    requires
        valid_state(s),
        has_instruction(s, id),
        pending_of(s, id) == 0,
        status_of(s, id) == InstructionStatus::Pending,
        !venue_blocked(s, instr(s, id)),
    ensures
        ({
            let i = instr(s, id);
            let released = release_locks(s.ledger, i.legs, i.leg_status, i.legs.len() as int);
            match transfer_pending(released, i.legs, i.leg_status, i.legs.len() as int) {
                Ok(l) => after_scheduled_execution(s, id).ledger == l
                    && status_of(after_scheduled_execution(s, id), id) == InstructionStatus::Success(s.block),
                Err(k) => after_scheduled_execution(s, id).ledger == s.ledger
                    && status_of(after_scheduled_execution(s, id), id) == InstructionStatus::Failed
                    && after_scheduled_execution(s, id).events.contains(Event::LegFailedExecution(id, LegId(k as u64))),
            }
        }),
{
    let s0 = SettlementView { scheduled: s.scheduled.remove(id), ..s };
    assert(execute_check(s0, id) == execute_check(s, id));
    assert(s.instructions[id.0 - 1].status is Pending);
    let a = after_scheduled_execution(s, id);
    if execute_check(s, id) is Err {
        assert(failed_leg(s0, id) is Some);
        let k = failed_leg(s0, id)->Some_0;
        let e = Event::LegFailedExecution(id, LegId(k as u64));
        assert(a.events[s.events.len() as int] == e);
    }
}

/// `n` rounds of rescheduling instruction `id` and running its execution.
pub open spec fn retry_rounds(s: SettlementView, did: IdentityId, id: InstructionId, n: nat) -> SettlementView
    decreases n,
{
    if n == 0 {
        s
    } else {
        after_scheduled_execution(rescheduled(retry_rounds(s, did, id, (n - 1) as nat), did, id), id)
    }
}

proof fn lemma_execution_keeps_valid(s: SettlementView, id: InstructionId)
    requires
        valid_state(s),
    ensures
        valid_state(after_scheduled_execution(s, id)),
{
    let a = after_scheduled_execution(s, id);
    let e = Map::<PortfolioId, AffirmationStatus>::empty();
    assert(e.dom() =~= Set::<PortfolioId>::empty());
    assert(pending_parties(e) =~= Set::<PortfolioId>::empty());
    assert forall|i: int| 0 <= i < a.instructions.len() implies ((#[trigger] a.instructions[i]).status is Pending
        || a.instructions[i].status is Failed <==> a.instructions[i].details is Some)
        && counts_pending(a.instructions[i].affirmations, a.instructions[i].affirms_pending) by {
        assert(s.instructions[i].status is Pending || s.instructions[i].status is Failed <==> s.instructions[i].details is Some);
        assert(counts_pending(s.instructions[i].affirmations, s.instructions[i].affirms_pending));
    }
}

/// The retry loop has no limit: as long as execution keeps failing, any number of rounds
/// of rescheduling and scheduled execution leaves the instruction failed, ready for the
/// next round.
pub proof fn law_retry_without_limit(s: SettlementView, did: IdentityId, id: InstructionId, n: nat)
    requires
        valid_state(s),
        status_of(s, id) == InstructionStatus::Failed,
        forall|k: nat| k < n ==> #[trigger] execute_check(rescheduled(retry_rounds(s, did, id, k), did, id), id) is Err,
    ensures
        valid_state(retry_rounds(s, did, id, n)),
        status_of(retry_rounds(s, did, id, n), id) == InstructionStatus::Failed,
    decreases n,
{
    if n > 0 {
        let m = (n - 1) as nat;
        law_retry_without_limit(s, did, id, m);
        let prev = retry_rounds(s, did, id, m);
        law_reschedule_loop(prev, did, id);
        assert(execute_check(rescheduled(retry_rounds(s, did, id, m), did, id), id) is Err);
        lemma_execution_keeps_valid(rescheduled(prev, did, id), id);
    }
}


/// Withdrawing the portfolios that an affirmation affirmed gives the instruction back its
/// pending count and its affirmation statuses.
pub proof fn law_withdraw_undoes_affirmation_count(
    s: SettlementView,
    did: IdentityId,
    id: InstructionId,
    portfolios: Seq<PortfolioId>,
    fungible: u32,
    nfts: Option<u32>,
    fungible2: u32,
    nfts2: Option<u32>,
)
    requires
        valid_state(s),
        affirm_check(s, did, id, portfolios, Seq::empty(), fungible, nfts) is Ok,
        withdraw_check(
            maybe_schedule(affirmed(s, did, id, portfolios, Seq::empty()), id),
            did,
            id,
            portfolios,
            fungible2,
            nfts2,
        ) is Ok,
    ensures
        ({
            let s1 = maybe_schedule(affirmed(s, did, id, portfolios, Seq::empty()), id);
            let s2 = withdrawn(s1, did, id, portfolios);
            &&& pending_of(s2, id) == pending_of(s, id)
            &&& instr(s2, id).affirmations == instr(s, id).affirmations
        }),
{
    let s1 = maybe_schedule(affirmed(s, did, id, portfolios, Seq::empty()), id);
    let i = instr(s, id);
    let pset = portfolios.to_set();
    assert(has_instruction(s, id));
    assert(counts_pending(s.instructions[id.0 - 1].affirmations, s.instructions[id.0 - 1].affirms_pending));
    lemma_portfolios_checked(s, id, dedup(portfolios), did, AffirmationStatus::Pending);
    lemma_dedup(portfolios);
    lemma_dedup_len(portfolios);
    assert forall|p: PortfolioId| #[trigger] pset.contains(p) implies i.affirmations.contains_key(p)
        && i.affirmations[p] == AffirmationStatus::Pending by {
        assert(dedup(portfolios).to_set().contains(p));
    }
    lemma_set_statuses_count(i.affirmations, pset, AffirmationStatus::Pending, AffirmationStatus::Affirmed);
    assert(instr(s1, id).affirms_pending == i.affirms_pending - dedup(portfolios).len());
    let a1 = i.affirmations.union_prefer_right(
        Map::new(|p: PortfolioId| pset.contains(p), |p: PortfolioId| AffirmationStatus::Affirmed),
    );
    assert(instr(s1, id).affirmations == a1);
    assert(a1.union_prefer_right(
        Map::new(|p: PortfolioId| pset.contains(p), |p: PortfolioId| AffirmationStatus::Pending),
    ) =~= i.affirmations);
}

} // verus!

//! The arbitration desk: the admin registers trusted arbiters; a claimant
//! opens a dispute against a respondent and locks the disputed amount in
//! escrow; a registered arbiter takes it under review and splits the amount
//! between the two parties, or the admin dismisses it and refunds the
//! claimant.
use vstd::prelude::*;
use crate::common::{
    Address, Transfer, net_inflow, sum_of, fits_i128, paid_to, payouts_in, positive_part, share_of,
    lemma_sum_push, lemma_sum_update, lemma_net_inflow_one, lemma_net_inflow_two,
    lemma_paid_to_none, lemma_paid_to_one, lemma_paid_to_two,
};

verus! {

#[derive(Clone, Copy, Debug, PartialEq, Eq, Structural)]
pub enum DisputeStatus {
    Open,
    UnderReview,
    Resolved,
    Dismissed,
}

#[derive(Clone, Copy, Debug, PartialEq, Eq, Structural)]
pub enum DisputeType {
    JobDispute,
    OrderDispute,
}

#[derive(Debug)]
pub struct Dispute {
    pub dispute_type: DisputeType,
    pub reference_id: u64,
    pub claimant: Address,
    pub respondent: Address,
    pub token: Address,
    pub disputed_amount: i128,
    pub reason: String,
    pub evidence: String,
    pub arbiter: Option<Address>,
    pub claimant_award: i128,
    pub respondent_award: i128,
    pub resolved_ledger: u32,
    pub status: DisputeStatus,
}

/// Why a call is refused. A refused call changes nothing.
#[derive(Clone, Copy, Debug, PartialEq, Eq, Structural)]
pub enum DisputeError {
    AlreadyInitialized,
    NotInitialized,
    NotAdmin,
    NotRegisteredArbiter,
    DisputeNotFound,
    DisputeNotOpen,
    NotAssignedArbiter,
    NotUnderReview,
    AwardsMismatch,
    CannotDismiss,
    /// An amount or a counter does not fit its machine integer.
    Overflow,
}

/// What a successful call announces.
#[derive(Clone, Copy, Debug, PartialEq, Eq, Structural)]
pub enum DisputeEvent {
    ArbiterRegistered { admin: Address, arbiter: Address },
    DisputeOpened {
        claimant: Address,
        dispute_id: u64,
        respondent: Address,
        token: Address,
        disputed_amount: i128,
    },
    ReviewAssigned { arbiter: Address, dispute_id: u64 },
    DisputeResolved {
        arbiter: Address,
        dispute_id: u64,
        claimant_award: i128,
        respondent_award: i128,
    },
    DisputeDismissed { admin: Address, dispute_id: u64 },
}

/// The contract's storage, as mathematical values: the admin once
/// initialized, the registered arbiters, and the dispute with id `i` as
/// `disputes[i]`.
pub struct DisputeState {
    pub admin: Option<Address>,
    pub arbiters: Set<Address>,
    pub disputes: Seq<Dispute>,
}

/// Whether a dispute's amount is still held in escrow.
pub open spec fn dispute_is_funded(s: DisputeStatus) -> bool {
    s is Open || s is UnderReview
}

/// What a dispute holds of `token` in escrow.
pub open spec fn dispute_escrow(d: Dispute, token: Address) -> int {
    if d.token == token && dispute_is_funded(d.status) {
        d.disputed_amount as int
    } else {
        0
    }
}

/// What all disputes together hold of `token` in escrow.
pub open spec fn escrow_of(disputes: Seq<Dispute>, token: Address) -> int {
    sum_of(disputes.map_values(|d: Dispute| dispute_escrow(d, token)))
}

/// The moves a dispute's status may make, over any number of calls.
pub open spec fn dispute_status_advances(a: DisputeStatus, b: DisputeStatus) -> bool {
    match a {
        DisputeStatus::Open => true,
        DisputeStatus::UnderReview => b is UnderReview || b is Resolved || b is Dismissed,
        DisputeStatus::Resolved => b is Resolved,
        DisputeStatus::Dismissed => b is Dismissed,
    }
}

/// How a stored dispute may change: its terms stay fixed, its status only
/// moves forward, an assigned arbiter stays, and a closed dispute stays as
/// it is.
pub open spec fn dispute_advances(a: Dispute, b: Dispute) -> bool {
    &&& b.dispute_type == a.dispute_type
    &&& b.reference_id == a.reference_id
    &&& b.claimant == a.claimant
    &&& b.respondent == a.respondent
    &&& b.token == a.token
    &&& b.disputed_amount == a.disputed_amount
    &&& b.reason == a.reason
    &&& b.evidence == a.evidence
    &&& dispute_status_advances(a.status, b.status)
    &&& (a.arbiter is Some && !(a.status is Open) ==> b.arbiter == a.arbiter)
    &&& (a.status is Resolved || a.status is Dismissed ==> b == a)
}

/// The payouts that settle a dispute: each party's award, where positive.
pub open spec fn award_payouts(d: Dispute, claimant_award: i128, respondent_award: i128) -> Seq<
    Transfer,
> {
    let to_claimant = if claimant_award > 0 {
        seq![Transfer::Payout { token: d.token, to: d.claimant, amount: claimant_award }]
    } else {
        Seq::empty()
    };
    let to_respondent = if respondent_award > 0 {
        seq![Transfer::Payout { token: d.token, to: d.respondent, amount: respondent_award }]
    } else {
        Seq::empty()
    };
    to_claimant + to_respondent
}

impl DisputeState {
    /// What the escrow holds of `token` for this state's disputes.
    pub open spec fn escrow(self, token: Address) -> int {
        escrow_of(self.disputes, token)
    }

    /// The escrow moves from `old` to `self` by exactly the transfers `ts`.
    pub open spec fn escrow_moved_by(self, old: DisputeState, ts: Seq<Transfer>) -> bool {
        forall|t: Address| #[trigger] self.escrow(t) == old.escrow(t) + net_inflow(ts, t)
    }

    pub open spec fn dispute_wf(self, d: Dispute) -> bool {
        &&& (d.status is Open ==> d.arbiter is None)
        &&& (d.status is UnderReview || d.status is Resolved ==> d.arbiter is Some)
        &&& (d.arbiter matches Some(a) ==> self.arbiters.contains(a))
        &&& (d.status is Resolved ==> d.claimant_award + d.respondent_award == d.disputed_amount)
        &&& (!(d.status is Resolved) ==> d.claimant_award == 0 && d.respondent_award == 0
            && d.resolved_ledger == 0)
    }

    /// What every reachable state satisfies: nothing is stored before
    /// initialization; an open dispute has no arbiter, one under review or
    /// resolved has one, and every assigned arbiter is registered; a
    /// resolved dispute's awards add up to the disputed amount, and any
    /// other dispute has no awards.
    pub open spec fn wf(self) -> bool {
        &&& (self.admin is None ==> self.disputes.len() == 0 && self.arbiters.is_empty())
        &&& forall|i: int| 0 <= i < self.disputes.len() ==> #[trigger] self.dispute_wf(self.disputes[i])
    }

    /// `self` can follow `old` after any number of calls: once set, the admin
    /// stays; arbiters are only added; disputes are only added; every stored
    /// dispute only advances.
    pub open spec fn evolves_from(self, old: DisputeState) -> bool {
        &&& (old.admin is Some ==> self.admin == old.admin)
        &&& old.arbiters.subset_of(self.arbiters)
        &&& old.disputes.len() <= self.disputes.len()
        &&& forall|i: int|
            0 <= i < old.disputes.len() ==> #[trigger] dispute_advances(
                old.disputes[i],
                self.disputes[i],
            )
    }

    pub open spec fn initialize_error(self) -> Option<DisputeError> {
        if self.admin is Some {
            Some(DisputeError::AlreadyInitialized)
        } else {
            None
        }
    }

    pub open spec fn register_arbiter_error(self, admin: Address) -> Option<DisputeError> {
        if self.admin is None {
            Some(DisputeError::NotInitialized)
        } else if self.admin != Some(admin) {
            Some(DisputeError::NotAdmin)
        } else {
            None
        }
    }

    pub open spec fn open_dispute_error(self) -> Option<DisputeError> {
        if self.admin is None {
            Some(DisputeError::NotInitialized)
        } else if self.disputes.len() >= u64::MAX {
            Some(DisputeError::Overflow)
        } else {
            None
        }
    }

    pub open spec fn assign_review_error(self, arbiter: Address, dispute_id: u64) -> Option<
        DisputeError,
    > {
        if !self.arbiters.contains(arbiter) {
            Some(DisputeError::NotRegisteredArbiter)
        } else if dispute_id >= self.disputes.len() {
            Some(DisputeError::DisputeNotFound)
        } else if !(self.disputes[dispute_id as int].status is Open) {
            Some(DisputeError::DisputeNotOpen)
        } else {
            None
        }
    }

    pub open spec fn resolve_error(
        self,
        arbiter: Address,
        dispute_id: u64,
        claimant_award: i128,
        respondent_award: i128,
    ) -> Option<DisputeError> {
        if dispute_id >= self.disputes.len() {
            Some(DisputeError::DisputeNotFound)
        } else {
            let d = self.disputes[dispute_id as int];
            if d.arbiter != Some(arbiter) {
                Some(DisputeError::NotAssignedArbiter)
            } else if !(d.status is UnderReview) {
                Some(DisputeError::NotUnderReview)
            } else if !fits_i128(claimant_award + respondent_award) {
                Some(DisputeError::Overflow)
            } else if claimant_award + respondent_award != d.disputed_amount {
                Some(DisputeError::AwardsMismatch)
            } else {
                None
            }
        }
    }

    pub open spec fn dismiss_error(self, admin: Address, dispute_id: u64) -> Option<DisputeError> {
        if self.admin is None {
            Some(DisputeError::NotInitialized)
        } else if self.admin != Some(admin) {
            Some(DisputeError::NotAdmin)
        } else if dispute_id >= self.disputes.len() {
            Some(DisputeError::DisputeNotFound)
        } else if !(self.disputes[dispute_id as int].status is Open
            || self.disputes[dispute_id as int].status is UnderReview) {
            Some(DisputeError::CannotDismiss)
        } else {
            None
        }
    }
}

pub struct DisputeContract {
    admin: Option<Address>,
    arbiters: Vec<Address>,
    disputes: Vec<Dispute>,
}

impl View for DisputeContract {
    type V = DisputeState;

    closed spec fn view(&self) -> DisputeState {
        DisputeState {
            admin: self.admin,
            arbiters: self.arbiters@.to_set(),
            disputes: self.disputes@,
        }
    }
}

proof fn lemma_escrow_push(disputes: Seq<Dispute>, d: Dispute, t: Address)
    ensures
        escrow_of(disputes.push(d), t) == escrow_of(disputes, t) + dispute_escrow(d, t),
{
    let f = |x: Dispute| dispute_escrow(x, t);
    assert(disputes.push(d).map_values(f) =~= disputes.map_values(f).push(f(d)));
    lemma_sum_push(disputes.map_values(f), f(d));
}

proof fn lemma_escrow_update(disputes: Seq<Dispute>, i: int, d: Dispute, t: Address)
    requires
        0 <= i < disputes.len(),
    ensures
        escrow_of(disputes.update(i, d), t) == escrow_of(disputes, t) - dispute_escrow(
            disputes[i],
            t,
        ) + dispute_escrow(d, t),
{
    let f = |x: Dispute| dispute_escrow(x, t);
    assert(disputes.update(i, d).map_values(f) =~= disputes.map_values(f).update(i, f(d)));
    lemma_sum_update(disputes.map_values(f), i, f(d));
}

proof fn lemma_replace_dispute(old: DisputeState, i: int, nd: Dispute)
    requires
        0 <= i < old.disputes.len(),
        dispute_advances(old.disputes[i], nd),
    ensures
        ({
            let new = DisputeState { disputes: old.disputes.update(i, nd), ..old };
            &&& new.evolves_from(old)
            &&& forall|t: Address| #[trigger]
                new.escrow(t) == old.escrow(t) - dispute_escrow(old.disputes[i], t)
                    + dispute_escrow(nd, t)
            &&& old.wf() && new.dispute_wf(nd) ==> new.wf()
        }),
{
    let new = DisputeState { disputes: old.disputes.update(i, nd), ..old };
    assert forall|t: Address| #[trigger]
        new.escrow(t) == old.escrow(t) - dispute_escrow(old.disputes[i], t) + dispute_escrow(
            nd,
            t,
        ) by {
        lemma_escrow_update(old.disputes, i, nd, t);
    }
    assert forall|k: int| 0 <= k < old.disputes.len() implies #[trigger] dispute_advances(
        old.disputes[k],
        new.disputes[k],
    ) by {
        if k != i {
            assert(new.disputes[k] == old.disputes[k]);
        }
    }
    if old.wf() && new.dispute_wf(nd) {
        assert forall|k: int| 0 <= k < new.disputes.len() implies #[trigger] new.dispute_wf(
            new.disputes[k],
        ) by {
            if k != i {
                assert(old.dispute_wf(old.disputes[k]));
            }
        }
    }
}

/// Histories compose: a state reached from `b`, itself reached from `a`, is
/// reached from `a`.
pub proof fn lemma_evolves_transitive(a: DisputeState, b: DisputeState, c: DisputeState)
    requires
        b.evolves_from(a),
        c.evolves_from(b),
    ensures
        c.evolves_from(a),
{
    assert forall|i: int| 0 <= i < a.disputes.len() implies #[trigger] dispute_advances(
        a.disputes[i],
        c.disputes[i],
    ) by {
        assert(dispute_advances(a.disputes[i], b.disputes[i]));
        assert(dispute_advances(b.disputes[i], c.disputes[i]));
    }
}

/// A resolved or dismissed dispute never changes again.
pub proof fn lemma_closed_dispute_is_final(a: DisputeState, b: DisputeState, dispute_id: int)
    requires
        b.evolves_from(a),
        0 <= dispute_id < a.disputes.len(),
        a.disputes[dispute_id].status is Resolved || a.disputes[dispute_id].status is Dismissed,
    ensures
        b.disputes[dispute_id] == a.disputes[dispute_id],
{
    assert(dispute_advances(a.disputes[dispute_id], b.disputes[dispute_id]));
}

/// Who may do what: registering arbiters and dismissing need the admin;
/// taking a dispute under review needs a registered arbiter and an open
/// dispute; resolving needs the dispute's assigned arbiter, a dispute under
/// review and awards that add up to the disputed amount; dismissing needs a
/// dispute that is open or under review.
pub proof fn lemma_who_may_act(s: DisputeState, caller: Address, dispute_id: u64, a1: i128, a2: i128)
    ensures
        s.initialize_error() is None <==> s.admin is None,
        s.register_arbiter_error(caller) is None ==> s.admin == Some(caller),
        s.open_dispute_error() is None ==> s.admin is Some,
        s.assign_review_error(caller, dispute_id) is None ==> s.arbiters.contains(caller)
            && dispute_id < s.disputes.len() && s.disputes[dispute_id as int].status is Open,
        s.resolve_error(caller, dispute_id, a1, a2) is None ==> dispute_id < s.disputes.len()
            && s.disputes[dispute_id as int].arbiter == Some(caller)
            && s.disputes[dispute_id as int].status is UnderReview
            && a1 + a2 == s.disputes[dispute_id as int].disputed_amount,
        s.dismiss_error(caller, dispute_id) is None ==> s.admin == Some(caller) && dispute_id
            < s.disputes.len() && (s.disputes[dispute_id as int].status is Open
            || s.disputes[dispute_id as int].status is UnderReview),
        !s.arbiters.contains(caller) ==> s.assign_review_error(caller, dispute_id) == Some(
            DisputeError::NotRegisteredArbiter,
        ),
{
}

/// Resolving a dispute pays only out of escrow and only in the dispute's
/// token: the claimant receives its award and the respondent theirs, each
/// where positive, whatever the other award is; nobody else receives
/// anything.
pub proof fn lemma_resolution_pays_each_award(d: Dispute, claimant_award: i128, respondent_award: i128)
    ensures
        payouts_in(award_payouts(d, claimant_award, respondent_award), d.token),
        forall|who: Address| #[trigger]
            paid_to(award_payouts(d, claimant_award, respondent_award), who) == share_of(
                who,
                d.claimant,
                positive_part(claimant_award as int),
            ) + share_of(who, d.respondent, positive_part(respondent_award as int)),
{
    let ts = award_payouts(d, claimant_award, respondent_award);
    let pc = Transfer::Payout { token: d.token, to: d.claimant, amount: claimant_award };
    let pr = Transfer::Payout { token: d.token, to: d.respondent, amount: respondent_award };
    if claimant_award > 0 && respondent_award > 0 {
        assert(ts =~= seq![pc, pr]);
    } else if claimant_award > 0 {
        assert(ts =~= seq![pc]);
    } else if respondent_award > 0 {
        assert(ts =~= seq![pr]);
    } else {
        assert(ts =~= Seq::<Transfer>::empty());
    }
    assert forall|who: Address| #[trigger]
        paid_to(ts, who) == share_of(who, d.claimant, positive_part(claimant_award as int))
            + share_of(who, d.respondent, positive_part(respondent_award as int)) by {
        lemma_paid_to_none(who);
        lemma_paid_to_one(pc, who);
        lemma_paid_to_one(pr, who);
        lemma_paid_to_two(pc, pr, who);
    }
}

/// In every reachable state, the awards of a resolved dispute add up to
/// the disputed amount, and a dispute that was not resolved awards nothing.
pub proof fn lemma_awards_add_up(s: DisputeState, dispute_id: int)
    requires
        s.wf(),
        0 <= dispute_id < s.disputes.len(),
    ensures
        s.disputes[dispute_id].status is Resolved ==> s.disputes[dispute_id].claimant_award
            + s.disputes[dispute_id].respondent_award == s.disputes[dispute_id].disputed_amount,
        !(s.disputes[dispute_id].status is Resolved) ==> s.disputes[dispute_id].claimant_award == 0
            && s.disputes[dispute_id].respondent_award == 0,
{
    assert(s.dispute_wf(s.disputes[dispute_id]));
}

impl DisputeContract {
    /// A freshly deployed contract, not yet initialized.
    pub fn new() -> (c: Self)
        ensures
            c@ == (DisputeState { admin: None, arbiters: Set::empty(), disputes: Seq::empty() }),
            c@.wf(),
    {
        let c = DisputeContract { admin: None, arbiters: Vec::new(), disputes: Vec::new() };
        proof {
            assert(c.arbiters@.to_set() =~= Set::empty());
        }
        c
    }

    /// The contract over storage read back from the ledger: the admin, the
    /// registered arbiters and the disputes.
    pub fn from_parts(admin: Option<Address>, arbiters: Vec<Address>, disputes: Vec<Dispute>) -> (c:
        Self)
        ensures
            c@ == (DisputeState { admin, arbiters: arbiters@.to_set(), disputes: disputes@ }),
    {
        DisputeContract { admin, arbiters, disputes }
    }

    /// The storage, to be written back to the ledger.
    pub fn into_parts(self) -> (r: (Option<Address>, Vec<Address>, Vec<Dispute>))
        ensures
            r.0 == self@.admin,
            r.1@.to_set() == self@.arbiters,
            r.2@ == self@.disputes,
    {
        (self.admin, self.arbiters, self.disputes)
    }

    /// Whether `arbiter` is registered.
    fn is_arbiter(&self, arbiter: Address) -> (r: bool)
        ensures
            r == self@.arbiters.contains(arbiter),
    {
        let mut i: usize = 0;
        while i < self.arbiters.len()
            invariant
                0 <= i <= self.arbiters@.len(),
                forall|k: int| 0 <= k < i ==> self.arbiters@[k] != arbiter,
            decreases self.arbiters@.len() - i,
        {
            if self.arbiters[i] == arbiter {
                proof {
                    assert(self.arbiters@.contains(arbiter));
                }
                return true;
            }
            i = i + 1;
        }
        false
    }

    /// One-time initializer: sets the admin. Refused once an admin is set.
    pub fn initialize(&mut self, admin: Address) -> (r: Result<(), DisputeError>)
        ensures
            match r {
                Ok(()) => old(self)@.initialize_error() is None && final(self)@ == (DisputeState {
                    admin: Some(admin),
                    ..old(self)@
                }),
                Err(e) => old(self)@.initialize_error() == Some(e) && final(self)@ == old(self)@,
            },
            old(self)@.wf() ==> final(self)@.wf(),
            final(self)@.evolves_from(old(self)@),
            final(self)@.escrow_moved_by(old(self)@, Seq::empty()),
    {
        if self.admin.is_some() {
            return Err(DisputeError::AlreadyInitialized);
        }
        self.admin = Some(admin);
        proof {
            assert forall|t: Address| #[trigger]
                self@.escrow(t) == old(self)@.escrow(t) + net_inflow(Seq::empty(), t) by {}
        }
        Ok(())
    }

    /// The admin registers a trusted arbiter.
    pub fn register_arbiter(&mut self, admin: Address, arbiter: Address) -> (r: Result<
        DisputeEvent,
        DisputeError,
    >)
        ensures
            match r {
                Ok(ev) => {
                    &&& old(self)@.register_arbiter_error(admin) is None
                    &&& final(self)@ == (DisputeState {
                        arbiters: old(self)@.arbiters.insert(arbiter),
                        ..old(self)@
                    })
                    &&& ev == (DisputeEvent::ArbiterRegistered { admin, arbiter })
                },
                Err(e) => old(self)@.register_arbiter_error(admin) == Some(e) && final(self)@ == old(self)@,
            },
            final(self)@.escrow_moved_by(old(self)@, Seq::empty()),
            old(self)@.wf() ==> final(self)@.wf(),
            final(self)@.evolves_from(old(self)@),
    {
        let stored = match self.admin {
            Some(a) => a,
            None => return Err(DisputeError::NotInitialized),
        };
        if admin != stored {
            return Err(DisputeError::NotAdmin);
        }
        let ghost before = self.arbiters@;
        if !self.is_arbiter(arbiter) {
            self.arbiters.push(arbiter);
            proof {
                let after = self.arbiters@;
                assert forall|x: Address| after.contains(x) <==> before.contains(x) || x == arbiter by {
                    if before.contains(x) {
                        let k = choose|k: int| 0 <= k < before.len() && before[k] == x;
                        assert(after[k] == x);
                    }
                    if x == arbiter {
                        assert(after[before.len() as int] == x);
                    }
                    if after.contains(x) {
                        let k = choose|k: int| 0 <= k < after.len() && after[k] == x;
                        if k < before.len() {
                            assert(before[k] == x);
                        }
                    }
                }
            }
        }
        proof {
            let o = old(self)@;
            let n = self@;
            assert(n.arbiters =~= o.arbiters.insert(arbiter));
            assert forall|t: Address| #[trigger]
                n.escrow(t) == o.escrow(t) + net_inflow(Seq::empty(), t) by {}
            assert forall|k: int| 0 <= k < o.disputes.len() implies #[trigger] dispute_advances(
                o.disputes[k],
                n.disputes[k],
            ) by {}
            if o.wf() {
                assert forall|k: int| 0 <= k < n.disputes.len() implies #[trigger] n.dispute_wf(
                    n.disputes[k],
                ) by {
                    assert(o.dispute_wf(o.disputes[k]));
                }
            }
        }
        Ok(DisputeEvent::ArbiterRegistered { admin, arbiter })
    }

    /// A claimant opens a dispute against a respondent: the disputed amount
    /// moves from the claimant into escrow and the dispute, open and without
    /// an arbiter, gets the next dispute id.
    pub fn open_dispute(
        &mut self,
        claimant: Address,
        respondent: Address,
        token: Address,
        disputed_amount: i128,
        dispute_type: DisputeType,
        reference_id: u64,
        reason: String,
        evidence: String,
    ) -> (r: Result<(u64, Vec<Transfer>, DisputeEvent), DisputeError>)
        ensures
            match r {
                Ok((id, ts, ev)) => {
                    &&& old(self)@.open_dispute_error() is None
                    &&& id == old(self)@.disputes.len()
                    &&& final(self)@ == (DisputeState {
                        disputes: old(self)@.disputes.push(
                            Dispute {
                                dispute_type,
                                reference_id,
                                claimant,
                                respondent,
                                token,
                                disputed_amount,
                                reason,
                                evidence,
                                arbiter: None,
                                claimant_award: 0,
                                respondent_award: 0,
                                resolved_ledger: 0,
                                status: DisputeStatus::Open,
                            },
                        ),
                        ..old(self)@
                    })
                    &&& ts@ == seq![Transfer::Deposit { token, from: claimant, amount: disputed_amount }]
                    &&& ev == (DisputeEvent::DisputeOpened {
                        claimant,
                        dispute_id: id,
                        respondent,
                        token,
                        disputed_amount,
                    })
                    &&& final(self)@.escrow_moved_by(old(self)@, ts@)
                },
                Err(e) => old(self)@.open_dispute_error() == Some(e) && final(self)@ == old(self)@,
            },
            old(self)@.wf() ==> final(self)@.wf(),
            final(self)@.evolves_from(old(self)@),
    {
        if self.admin.is_none() {
            return Err(DisputeError::NotInitialized);
        }
        let id = self.disputes.len() as u64;
        if id == u64::MAX {
            return Err(DisputeError::Overflow);
        }
        let d = Dispute {
            dispute_type,
            reference_id,
            claimant,
            respondent,
            token,
            disputed_amount,
            reason,
            evidence,
            arbiter: None,
            claimant_award: 0,
            respondent_award: 0,
            resolved_ledger: 0,
            status: DisputeStatus::Open,
        };
        let ghost stored = d;
        self.disputes.push(d);
        let mut ts: Vec<Transfer> = Vec::new();
        ts.push(Transfer::Deposit { token, from: claimant, amount: disputed_amount });
        proof {
            let o = old(self)@;
            let n = self@;
            let dep = Transfer::Deposit { token, from: claimant, amount: disputed_amount };
            assert(ts@ =~= seq![dep]);
            assert forall|t: Address| #[trigger] n.escrow(t) == o.escrow(t) + net_inflow(ts@, t) by {
                lemma_escrow_push(o.disputes, stored, t);
                lemma_net_inflow_one(dep, t);
            }
            assert forall|k: int| 0 <= k < o.disputes.len() implies #[trigger] dispute_advances(
                o.disputes[k],
                n.disputes[k],
            ) by {
                assert(n.disputes[k] == o.disputes[k]);
            }
            if o.wf() {
                assert forall|k: int| 0 <= k < n.disputes.len() implies #[trigger] n.dispute_wf(
                    n.disputes[k],
                ) by {
                    if k < o.disputes.len() {
                        assert(o.dispute_wf(o.disputes[k]));
                    }
                }
            }
        }
        Ok(
            (
                id,
                ts,
                DisputeEvent::DisputeOpened {
                    claimant,
                    dispute_id: id,
                    respondent,
                    token,
                    disputed_amount,
                },
            ),
        )
    }

    /// A registered arbiter takes an open dispute under review and becomes
    /// its arbiter.
    pub fn assign_review(&mut self, arbiter: Address, dispute_id: u64) -> (r: Result<
        DisputeEvent,
        DisputeError,
    >)
        ensures
            match r {
                Ok(ev) => {
                    let d = old(self)@.disputes[dispute_id as int];
                    &&& old(self)@.assign_review_error(arbiter, dispute_id) is None
                    &&& final(self)@ == (DisputeState {
                        disputes: old(self)@.disputes.update(
                            dispute_id as int,
                            Dispute {
                                arbiter: Some(arbiter),
                                status: DisputeStatus::UnderReview,
                                ..d
                            },
                        ),
                        ..old(self)@
                    })
                    &&& ev == (DisputeEvent::ReviewAssigned { arbiter, dispute_id })
                },
                Err(e) => old(self)@.assign_review_error(arbiter, dispute_id) == Some(e) && final(self)@ == old(self)@,
            },
            final(self)@.escrow_moved_by(old(self)@, Seq::empty()),
            old(self)@.wf() ==> final(self)@.wf(),
            final(self)@.evolves_from(old(self)@),
    {
        if !self.is_arbiter(arbiter) {
            return Err(DisputeError::NotRegisteredArbiter);
        }
        if dispute_id >= self.disputes.len() as u64 {
            return Err(DisputeError::DisputeNotFound);
        }
        let i = dispute_id as usize;
        if self.disputes[i].status != DisputeStatus::Open {
            return Err(DisputeError::DisputeNotOpen);
        }
        self.disputes[i].arbiter = Some(arbiter);
        self.disputes[i].status = DisputeStatus::UnderReview;
        proof {
            let o = old(self)@;
            let nd = self@.disputes[i as int];
            lemma_replace_dispute(o, i as int, nd);
            assert(self@.disputes =~= o.disputes.update(i as int, nd));
            assert forall|t: Address| #[trigger]
                self@.escrow(t) == o.escrow(t) + net_inflow(Seq::empty(), t) by {}
            if o.wf() {
                assert(o.dispute_wf(o.disputes[i as int]));
            }
        }
        Ok(DisputeEvent::ReviewAssigned { arbiter, dispute_id })
    }

    /// The assigned arbiter resolves a dispute under review by splitting the
    /// disputed amount between claimant and respondent: each positive award
    /// is paid out, the awards and the ledger `ledger_sequence` are recorded
    /// and the dispute is resolved.
    pub fn resolve(
        &mut self,
        arbiter: Address,
        dispute_id: u64,
        claimant_award: i128,
        respondent_award: i128,
        ledger_sequence: u32,
    ) -> (r: Result<(Vec<Transfer>, DisputeEvent), DisputeError>)
        ensures
            match r {
                Ok((ts, ev)) => {
                    let d = old(self)@.disputes[dispute_id as int];
                    &&& old(self)@.resolve_error(arbiter, dispute_id, claimant_award, respondent_award)
                        is None
                    &&& final(self)@ == (DisputeState {
                        disputes: old(self)@.disputes.update(
                            dispute_id as int,
                            Dispute {
                                claimant_award,
                                respondent_award,
                                resolved_ledger: ledger_sequence,
                                status: DisputeStatus::Resolved,
                                ..d
                            },
                        ),
                        ..old(self)@
                    })
                    &&& ts@ == award_payouts(d, claimant_award, respondent_award)
                    &&& payouts_in(ts@, d.token)
                    &&& forall|who: Address| #[trigger]
                        paid_to(ts@, who) == share_of(who, d.claimant, positive_part(claimant_award as int))
                            + share_of(who, d.respondent, positive_part(respondent_award as int))
                    &&& ev == (DisputeEvent::DisputeResolved {
                        arbiter,
                        dispute_id,
                        claimant_award,
                        respondent_award,
                    })
                    &&& (claimant_award >= 0 && respondent_award >= 0
                        ==> final(self)@.escrow_moved_by(old(self)@, ts@))
                },
                Err(e) => old(self)@.resolve_error(
                    arbiter,
                    dispute_id,
                    claimant_award,
                    respondent_award,
                ) == Some(e) && final(self)@ == old(self)@,
            },
            old(self)@.wf() ==> final(self)@.wf(),
            final(self)@.evolves_from(old(self)@),
    {
        if dispute_id >= self.disputes.len() as u64 {
            return Err(DisputeError::DisputeNotFound);
        }
        let i = dispute_id as usize;
        if self.disputes[i].arbiter != Some(arbiter) {
            return Err(DisputeError::NotAssignedArbiter);
        }
        if self.disputes[i].status != DisputeStatus::UnderReview {
            return Err(DisputeError::NotUnderReview);
        }
        let sum = match claimant_award.checked_add(respondent_award) {
            Some(x) => x,
            None => return Err(DisputeError::Overflow),
        };
        if sum != self.disputes[i].disputed_amount {
            return Err(DisputeError::AwardsMismatch);
        }
        let token = self.disputes[i].token;
        let claimant = self.disputes[i].claimant;
        let respondent = self.disputes[i].respondent;
        let mut ts: Vec<Transfer> = Vec::new();
        if claimant_award > 0 {
            ts.push(Transfer::Payout { token, to: claimant, amount: claimant_award });
        }
        if respondent_award > 0 {
            ts.push(Transfer::Payout { token, to: respondent, amount: respondent_award });
        }
        self.disputes[i].claimant_award = claimant_award;
        self.disputes[i].respondent_award = respondent_award;
        self.disputes[i].resolved_ledger = ledger_sequence;
        self.disputes[i].status = DisputeStatus::Resolved;
        proof {
            let o = old(self)@;
            let nd = self@.disputes[i as int];
            let pc = Transfer::Payout { token, to: claimant, amount: claimant_award };
            let pr = Transfer::Payout { token, to: respondent, amount: respondent_award };
            lemma_replace_dispute(o, i as int, nd);
            assert(self@.disputes =~= o.disputes.update(i as int, nd));
            if claimant_award > 0 && respondent_award > 0 {
                assert(ts@ =~= seq![pc, pr]);
            } else if claimant_award > 0 {
                assert(ts@ =~= seq![pc]);
            } else if respondent_award > 0 {
                assert(ts@ =~= seq![pr]);
            } else {
                assert(ts@ =~= Seq::<Transfer>::empty());
            }
            assert forall|who: Address| #[trigger]
                paid_to(ts@, who) == share_of(who, claimant, positive_part(claimant_award as int))
                    + share_of(who, respondent, positive_part(respondent_award as int)) by {
                lemma_paid_to_none(who);
                lemma_paid_to_one(pc, who);
                lemma_paid_to_one(pr, who);
                lemma_paid_to_two(pc, pr, who);
            }
            assert(ts@ =~= award_payouts(o.disputes[i as int], claimant_award, respondent_award));
            if claimant_award >= 0 && respondent_award >= 0 {
                assert forall|t: Address| #[trigger]
                    self@.escrow(t) == o.escrow(t) + net_inflow(ts@, t) by {
                    lemma_net_inflow_one(pc, t);
                    lemma_net_inflow_one(pr, t);
                    lemma_net_inflow_two(pc, pr, t);
                }
            }
            if o.wf() {
                assert(o.dispute_wf(o.disputes[i as int]));
            }
        }
        Ok((ts, DisputeEvent::DisputeResolved { arbiter, dispute_id, claimant_award, respondent_award }))
    }

    /// The admin dismisses a dispute that is open or under review: the
    /// disputed amount goes back to the claimant.
    pub fn dismiss(&mut self, admin: Address, dispute_id: u64) -> (r: Result<
        (Vec<Transfer>, DisputeEvent),
        DisputeError,
    >)
        ensures
            match r {
                Ok((ts, ev)) => {
                    let d = old(self)@.disputes[dispute_id as int];
                    &&& old(self)@.dismiss_error(admin, dispute_id) is None
                    &&& final(self)@ == (DisputeState {
                        disputes: old(self)@.disputes.update(
                            dispute_id as int,
                            Dispute { status: DisputeStatus::Dismissed, ..d },
                        ),
                        ..old(self)@
                    })
                    &&& ts@ == seq![Transfer::Payout { token: d.token, to: d.claimant, amount: d.disputed_amount }]
                    &&& ev == (DisputeEvent::DisputeDismissed { admin, dispute_id })
                    &&& final(self)@.escrow_moved_by(old(self)@, ts@)
                },
                Err(e) => old(self)@.dismiss_error(admin, dispute_id) == Some(e) && final(self)@ == old(self)@,
            },
            old(self)@.wf() ==> final(self)@.wf(),
            final(self)@.evolves_from(old(self)@),
    {
        let stored = match self.admin {
            Some(a) => a,
            None => return Err(DisputeError::NotInitialized),
        };
        if admin != stored {
            return Err(DisputeError::NotAdmin);
        }
        if dispute_id >= self.disputes.len() as u64 {
            return Err(DisputeError::DisputeNotFound);
        }
        let i = dispute_id as usize;
        if self.disputes[i].status != DisputeStatus::Open
            && self.disputes[i].status != DisputeStatus::UnderReview {
            return Err(DisputeError::CannotDismiss);
        }
        let token = self.disputes[i].token;
        let claimant = self.disputes[i].claimant;
        let amount = self.disputes[i].disputed_amount;
        self.disputes[i].status = DisputeStatus::Dismissed;
        let mut ts: Vec<Transfer> = Vec::new();
        ts.push(Transfer::Payout { token, to: claimant, amount });
        proof {
            let o = old(self)@;
            let nd = self@.disputes[i as int];
            let p = Transfer::Payout { token, to: claimant, amount };
            lemma_replace_dispute(o, i as int, nd);
            assert(self@.disputes =~= o.disputes.update(i as int, nd));
            assert(ts@ =~= seq![p]);
            assert forall|t: Address| #[trigger]
                self@.escrow(t) == o.escrow(t) + net_inflow(ts@, t) by {
                lemma_net_inflow_one(p, t);
            }
            if o.wf() {
                assert(o.dispute_wf(o.disputes[i as int]));
            }
        }
        Ok((ts, DisputeEvent::DisputeDismissed { admin, dispute_id }))
    }

    /// The dispute with id `dispute_id`.
    pub fn get_dispute(&self, dispute_id: u64) -> (r: Result<&Dispute, DisputeError>)
        ensures
            match r {
                Ok(d) => dispute_id < self@.disputes.len() && *d == self@.disputes[dispute_id as int],
                Err(e) => dispute_id >= self@.disputes.len() && e == DisputeError::DisputeNotFound,
            },
    {
        if dispute_id >= self.disputes.len() as u64 {
            return Err(DisputeError::DisputeNotFound);
        }
        Ok(&self.disputes[dispute_id as usize])
    }
}

} // verus!

//! The job board: a client posts a job and locks its budget plus the
//! platform fee in escrow; freelancers apply; the client hires one of them;
//! the job then completes (budget to the freelancer, fee to the admin), is
//! cancelled while still open (everything back to the client), or goes to a
//! dispute that the admin settles by splitting the escrow.
use vstd::prelude::*;
use crate::common::{
    Address, Transfer, net_inflow, sum_of, fee_for, fee_computable, fits_i128, compute_fee,
    paid_to, payouts_in, positive_part, share_of, lemma_sum_push, lemma_sum_update,
    lemma_net_inflow_one, lemma_net_inflow_two, lemma_paid_to_none, lemma_paid_to_one,
    lemma_paid_to_two,
};

verus! {

#[derive(Clone, Copy, Debug, PartialEq, Eq, Structural)]
pub enum JobStatus {
    Open,
    InProgress,
    Completed,
    Cancelled,
    Disputed,
}

#[derive(Clone, Copy, Debug, PartialEq, Eq, Structural)]
pub enum ApplicationStatus {
    Pending,
    Accepted,
    Rejected,
}

#[derive(Clone, Copy, Debug, PartialEq, Eq, Structural)]
pub enum TokenType {
    USDC,
    XLM,
    Custom,
}

#[derive(Debug)]
pub struct Job {
    pub client: Address,
    pub freelancer: Option<Address>,
    pub token: Address,
    pub token_type: TokenType,
    pub budget: i128,
    pub fee: i128,
    pub title: String,
    pub description: String,
    pub category: String,
    pub deadline_ledger: u32,
    pub status: JobStatus,
}

#[derive(Debug)]
pub struct Application {
    pub job_id: u64,
    pub applicant: Address,
    pub proposal: String,
    pub bid_amount: i128,
    pub status: ApplicationStatus,
}

/// Why a call is refused. A refused call changes nothing.
#[derive(Clone, Copy, Debug, PartialEq, Eq, Structural)]
pub enum MarketError {
    AlreadyInitialized,
    NotInitialized,
    JobNotFound,
    JobNotOpen,
    NotClient,
    AppNotFound,
    AppJobMismatch,
    NotInProgress,
    NoFreelancer,
    CanOnlyCancelOpen,
    NotAParty,
    NotAdmin,
    NotDisputed,
    AwardsMismatch,
    /// A job's budget must be positive.
    InvalidBudget,
    /// An amount or a counter does not fit its machine integer.
    Overflow,
}

/// What a successful call announces.
#[derive(Clone, Copy, Debug, PartialEq, Eq, Structural)]
pub enum MarketEvent {
    JobPosted { client: Address, job_id: u64, token: Address, budget: i128 },
    Applied { applicant: Address, app_id: u64, job_id: u64, bid_amount: i128 },
    FreelancerHired { client: Address, job_id: u64, freelancer: Address },
    JobCompleted { client: Address, job_id: u64, freelancer: Address, budget: i128 },
    JobCancelled { client: Address, job_id: u64, refund: i128 },
    DisputeFlagged { caller: Address, job_id: u64 },
    DisputeResolved { admin: Address, job_id: u64, client_award: i128, freelancer_award: i128 },
}

/// The contract's storage, as mathematical values. The job with id `i` is
/// `jobs[i]`, the application with id `i` is `applications[i]`; the
/// counters of the two are the lengths. The contract is initialized when it
/// has an admin.
pub struct MarketState {
    pub admin: Option<Address>,
    pub fee_bps: u32,
    pub jobs: Seq<Job>,
    pub applications: Seq<Application>,
}

/// Whether a job's money is still held in escrow.
pub open spec fn job_is_funded(s: JobStatus) -> bool {
    s is Open || s is InProgress || s is Disputed
}

/// What a job holds of `token` in escrow.
pub open spec fn job_escrow(j: Job, token: Address) -> int {
    if j.token == token && job_is_funded(j.status) {
        j.budget + j.fee
    } else {
        0
    }
}

/// What all jobs together hold of `token` in escrow.
pub open spec fn escrow_of(jobs: Seq<Job>, token: Address) -> int {
    sum_of(jobs.map_values(|j: Job| job_escrow(j, token)))
}

/// The moves a job's status may make, over any number of calls.
pub open spec fn job_status_advances(a: JobStatus, b: JobStatus) -> bool {
    match a {
        JobStatus::Open => true,
        JobStatus::InProgress => b is InProgress || b is Completed || b is Disputed,
        JobStatus::Disputed => b is Disputed || b is Completed,
        JobStatus::Completed => b is Completed,
        JobStatus::Cancelled => b is Cancelled,
    }
}

/// How a stored job may change: its terms stay fixed, its status only moves
/// forward, the freelancer of a job that has left `Open` stays, and a
/// finished job stays as it is.
pub open spec fn job_advances(a: Job, b: Job) -> bool {
    &&& b.client == a.client
    &&& b.token == a.token
    &&& b.token_type == a.token_type
    &&& b.budget == a.budget
    &&& b.fee == a.fee
    &&& b.title == a.title
    &&& b.description == a.description
    &&& b.category == a.category
    &&& b.deadline_ledger == a.deadline_ledger
    &&& job_status_advances(a.status, b.status)
    &&& (a.freelancer is Some && !(a.status is Open) ==> b.freelancer == a.freelancer)
    &&& (a.status is Completed || a.status is Cancelled ==> b == a)
}

/// How a stored application may change: only its status, and only by
/// being accepted; an accepted application stays accepted.
pub open spec fn application_advances(a: Application, b: Application) -> bool {
    &&& b.job_id == a.job_id
    &&& b.applicant == a.applicant
    &&& b.proposal == a.proposal
    &&& b.bid_amount == a.bid_amount
    &&& (b.status == a.status || b.status is Accepted)
}

impl MarketState {
    /// What the escrow holds of `token` for this state's jobs.
    pub open spec fn escrow(self, token: Address) -> int {
        escrow_of(self.jobs, token)
    }

    /// The escrow moves from `old` to `self` by exactly the transfers `ts`.
    pub open spec fn escrow_moved_by(self, old: MarketState, ts: Seq<Transfer>) -> bool {
        forall|t: Address| #[trigger] self.escrow(t) == old.escrow(t) + net_inflow(ts, t)
    }

    pub open spec fn job_wf(self, j: Job) -> bool {
        &&& (j.freelancer is Some <==> !(j.status is Open || j.status is Cancelled))
        &&& j.fee == fee_for(j.budget as int, self.fee_bps as int)
        &&& fits_i128(j.budget + j.fee)
        &&& j.budget > 0
    }

    pub open spec fn application_wf(self, a: Application) -> bool {
        &&& a.job_id < self.jobs.len()
        &&& (a.status is Accepted ==> self.jobs[a.job_id as int].freelancer == Some(a.applicant))
    }

    /// What every reachable state satisfies: nothing is stored before
    /// initialization; a job has a freelancer exactly when it has been hired;
    /// its budget is positive and its fee is the platform fee on it; every
    /// application names a
    /// stored job; an accepted application names the job's freelancer; and a
    /// job has at most one accepted application.
    pub open spec fn wf(self) -> bool {
        &&& (self.admin is None ==> self.jobs.len() == 0 && self.applications.len() == 0)
        &&& forall|i: int| 0 <= i < self.jobs.len() ==> #[trigger] self.job_wf(self.jobs[i])
        &&& forall|i: int|
            0 <= i < self.applications.len() ==> #[trigger] self.application_wf(self.applications[i])
        &&& forall|a: int, b: int|
            0 <= a < self.applications.len() && 0 <= b < self.applications.len()
                && (#[trigger] self.applications[a]).status is Accepted
                && (#[trigger] self.applications[b]).status is Accepted
                && self.applications[a].job_id == self.applications[b].job_id ==> a == b
    }

    /// `self` can follow `old` after any number of calls: once set, the admin
    /// and the fee stay; records are only added; every stored record only
    /// advances.
    pub open spec fn evolves_from(self, old: MarketState) -> bool {
        &&& (old.admin is Some ==> self.admin == old.admin && self.fee_bps == old.fee_bps)
        &&& old.jobs.len() <= self.jobs.len()
        &&& forall|i: int|
            0 <= i < old.jobs.len() ==> #[trigger] job_advances(old.jobs[i], self.jobs[i])
        &&& old.applications.len() <= self.applications.len()
        &&& forall|i: int|
            0 <= i < old.applications.len() ==> #[trigger] application_advances(
                old.applications[i],
                self.applications[i],
            )
    }

    pub open spec fn initialize_error(self) -> Option<MarketError> {
        if self.admin is Some {
            Some(MarketError::AlreadyInitialized)
        } else {
            None
        }
    }

    pub open spec fn post_job_error(self, budget: i128) -> Option<MarketError> {
        if self.admin is None {
            Some(MarketError::NotInitialized)
        } else if budget <= 0 {
            Some(MarketError::InvalidBudget)
        } else if !fee_computable(budget, self.fee_bps) {
            Some(MarketError::Overflow)
        } else if !fits_i128(budget + fee_for(budget as int, self.fee_bps as int)) {
            Some(MarketError::Overflow)
        } else if self.jobs.len() >= u64::MAX {
            Some(MarketError::Overflow)
        } else {
            None
        }
    }

    pub open spec fn apply_to_job_error(self, job_id: u64) -> Option<MarketError> {
        if job_id >= self.jobs.len() {
            Some(MarketError::JobNotFound)
        } else if !(self.jobs[job_id as int].status is Open) {
            Some(MarketError::JobNotOpen)
        } else if self.admin is None {
            Some(MarketError::NotInitialized)
        } else if self.applications.len() >= u64::MAX {
            Some(MarketError::Overflow)
        } else {
            None
        }
    }

    /// The job that `post_job` stores.
    pub open spec fn posted_job(
        self,
        client: Address,
        token: Address,
        token_type: TokenType,
        budget: i128,
        title: String,
        description: String,
        category: String,
        deadline_ledger: u32,
    ) -> Job {
        Job {
            client,
            freelancer: None,
            token,
            token_type,
            budget,
            fee: fee_for(budget as int, self.fee_bps as int) as i128,
            title,
            description,
            category,
            deadline_ledger,
            status: JobStatus::Open,
        }
    }

    pub open spec fn hire_error(self, client: Address, job_id: u64, app_id: u64) -> Option<MarketError> {
        if job_id >= self.jobs.len() {
            Some(MarketError::JobNotFound)
        } else if self.jobs[job_id as int].client != client {
            Some(MarketError::NotClient)
        } else if !(self.jobs[job_id as int].status is Open) {
            Some(MarketError::JobNotOpen)
        } else if app_id >= self.applications.len() {
            Some(MarketError::AppNotFound)
        } else if self.applications[app_id as int].job_id != job_id {
            Some(MarketError::AppJobMismatch)
        } else {
            None
        }
    }

    pub open spec fn complete_job_error(self, client: Address, job_id: u64) -> Option<MarketError> {
        if job_id >= self.jobs.len() {
            Some(MarketError::JobNotFound)
        } else if self.jobs[job_id as int].client != client {
            Some(MarketError::NotClient)
        } else if !(self.jobs[job_id as int].status is InProgress) {
            Some(MarketError::NotInProgress)
        } else if self.jobs[job_id as int].freelancer is None {
            Some(MarketError::NoFreelancer)
        } else if self.admin is None {
            Some(MarketError::NotInitialized)
        } else {
            None
        }
    }

    pub open spec fn cancel_job_error(self, client: Address, job_id: u64) -> Option<MarketError> {
        if job_id >= self.jobs.len() {
            Some(MarketError::JobNotFound)
        } else if self.jobs[job_id as int].client != client {
            Some(MarketError::NotClient)
        } else if !(self.jobs[job_id as int].status is Open) {
            Some(MarketError::CanOnlyCancelOpen)
        } else if !fits_i128(self.jobs[job_id as int].budget + self.jobs[job_id as int].fee) {
            Some(MarketError::Overflow)
        } else {
            None
        }
    }

    pub open spec fn flag_dispute_error(self, caller: Address, job_id: u64) -> Option<MarketError> {
        if job_id >= self.jobs.len() {
            Some(MarketError::JobNotFound)
        } else if self.jobs[job_id as int].freelancer is None {
            Some(MarketError::NoFreelancer)
        } else if caller != self.jobs[job_id as int].client && Some(caller)
            != self.jobs[job_id as int].freelancer {
            Some(MarketError::NotAParty)
        } else if !(self.jobs[job_id as int].status is InProgress) {
            Some(MarketError::NotInProgress)
        } else {
            None
        }
    }

    pub open spec fn resolve_dispute_error(
        self,
        admin: Address,
        job_id: u64,
        client_award: i128,
        freelancer_award: i128,
    ) -> Option<MarketError> {
        if self.admin is None {
            Some(MarketError::NotInitialized)
        } else if self.admin != Some(admin) {
            Some(MarketError::NotAdmin)
        } else if job_id >= self.jobs.len() {
            Some(MarketError::JobNotFound)
        } else if !(self.jobs[job_id as int].status is Disputed) {
            Some(MarketError::NotDisputed)
        } else if !fits_i128(self.jobs[job_id as int].budget + self.jobs[job_id as int].fee) {
            Some(MarketError::Overflow)
        } else if !fits_i128(client_award + freelancer_award) {
            Some(MarketError::Overflow)
        } else if client_award + freelancer_award != self.jobs[job_id as int].budget
            + self.jobs[job_id as int].fee {
            Some(MarketError::AwardsMismatch)
        } else if self.jobs[job_id as int].freelancer is None {
            Some(MarketError::NoFreelancer)
        } else {
            None
        }
    }

    /// The job `job_id` with its status set to `status`.
    pub open spec fn job_with_status(self, job_id: u64, status: JobStatus) -> Job {
        Job { status, ..self.jobs[job_id as int] }
    }
}

/// The payouts that settle a dispute: each party's award, where positive.
pub open spec fn settlement_payouts(
    token: Address,
    client: Address,
    freelancer: Address,
    client_award: i128,
    freelancer_award: i128,
) -> Seq<Transfer> {
    let to_client = if client_award > 0 {
        seq![Transfer::Payout { token, to: client, amount: client_award }]
    } else {
        Seq::empty()
    };
    let to_freelancer = if freelancer_award > 0 {
        seq![Transfer::Payout { token, to: freelancer, amount: freelancer_award }]
    } else {
        Seq::empty()
    };
    to_client + to_freelancer
}

pub struct MarketplaceContract {
    admin: Option<Address>,
    fee_bps: u32,
    jobs: Vec<Job>,
    applications: Vec<Application>,
}

impl View for MarketplaceContract {
    type V = MarketState;

    closed spec fn view(&self) -> MarketState {
        MarketState {
            admin: self.admin,
            fee_bps: self.fee_bps,
            jobs: self.jobs@,
            applications: self.applications@,
        }
    }
}

proof fn lemma_escrow_push(jobs: Seq<Job>, j: Job, t: Address)
    ensures
        escrow_of(jobs.push(j), t) == escrow_of(jobs, t) + job_escrow(j, t),
{
    let f = |x: Job| job_escrow(x, t);
    assert(jobs.push(j).map_values(f) =~= jobs.map_values(f).push(f(j)));
    lemma_sum_push(jobs.map_values(f), f(j));
}

proof fn lemma_escrow_update(jobs: Seq<Job>, i: int, j: Job, t: Address)
    requires
        0 <= i < jobs.len(),
    ensures
        escrow_of(jobs.update(i, j), t) == escrow_of(jobs, t) - job_escrow(jobs[i], t)
            + job_escrow(j, t),
{
    let f = |x: Job| job_escrow(x, t);
    assert(jobs.update(i, j).map_values(f) =~= jobs.map_values(f).update(i, f(j)));
    lemma_sum_update(jobs.map_values(f), i, f(j));
}

proof fn lemma_replace_job(old: MarketState, j: int, nj: Job)
    requires
        0 <= j < old.jobs.len(),
        job_advances(old.jobs[j], nj),
    ensures
        ({
            let new = MarketState { jobs: old.jobs.update(j, nj), ..old };
            &&& new.evolves_from(old)
            &&& forall|t: Address| #[trigger]
                new.escrow(t) == old.escrow(t) - job_escrow(old.jobs[j], t) + job_escrow(nj, t)
        }),
{
    let new = MarketState { jobs: old.jobs.update(j, nj), ..old };
    assert forall|t: Address| #[trigger]
        new.escrow(t) == old.escrow(t) - job_escrow(old.jobs[j], t) + job_escrow(nj, t) by {
        lemma_escrow_update(old.jobs, j, nj, t);
    }
    assert forall|i: int| 0 <= i < old.jobs.len() implies #[trigger] job_advances(
        old.jobs[i],
        new.jobs[i],
    ) by {
        if i != j {
            assert(new.jobs[i] == old.jobs[i]);
        }
    }
    assert forall|i: int|
        0 <= i < old.applications.len() implies #[trigger] application_advances(
        old.applications[i],
        new.applications[i],
    ) by {}
}

/// Replacing a job by one that keeps its freelancer and is itself
/// well-formed keeps the whole state well-formed.
proof fn lemma_replace_job_wf(old: MarketState, j: int, nj: Job)
    requires
        old.wf(),
        0 <= j < old.jobs.len(),
        nj.freelancer == old.jobs[j].freelancer,
        old.job_wf(nj),
    ensures
        (MarketState { jobs: old.jobs.update(j, nj), ..old }).wf(),
{
    let new = MarketState { jobs: old.jobs.update(j, nj), ..old };
    assert forall|i: int| 0 <= i < new.jobs.len() implies #[trigger] new.job_wf(new.jobs[i]) by {
        if i != j {
            assert(old.job_wf(old.jobs[i]));
        }
    }
    assert forall|i: int|
        0 <= i < new.applications.len() implies #[trigger] new.application_wf(
        new.applications[i],
    ) by {
        assert(old.application_wf(old.applications[i]));
    }
}

/// Histories compose: a state reached from `b`, itself reached from `a`, is
/// reached from `a`. With each call's `evolves_from` clause this makes the
/// laws of `evolves_from` hold across any sequence of calls.
pub proof fn lemma_evolves_transitive(a: MarketState, b: MarketState, c: MarketState)
    requires
        b.evolves_from(a),
        c.evolves_from(b),
    ensures
        c.evolves_from(a),
{
    assert forall|i: int| 0 <= i < a.jobs.len() implies #[trigger] job_advances(
        a.jobs[i],
        c.jobs[i],
    ) by {
        assert(job_advances(a.jobs[i], b.jobs[i]));
        assert(job_advances(b.jobs[i], c.jobs[i]));
    }
    assert forall|i: int|
        0 <= i < a.applications.len() implies #[trigger] application_advances(
        a.applications[i],
        c.applications[i],
    ) by {
        assert(application_advances(a.applications[i], b.applications[i]));
        assert(application_advances(b.applications[i], c.applications[i]));
    }
}

/// A completed or cancelled job never changes again.
pub proof fn lemma_finished_job_is_final(a: MarketState, b: MarketState, job_id: int)
    requires
        b.evolves_from(a),
        0 <= job_id < a.jobs.len(),
        a.jobs[job_id].status is Completed || a.jobs[job_id].status is Cancelled,
    ensures
        b.jobs[job_id] == a.jobs[job_id],
{
    assert(job_advances(a.jobs[job_id], b.jobs[job_id]));
}

/// Setting a job's status changes its status to the one given and nothing
/// else.
pub proof fn lemma_status_change_only(s: MarketState, job_id: u64, status: JobStatus)
    requires
        job_id < s.jobs.len(),
    ensures
        ({
            let (old_job, new_job) = (s.jobs[job_id as int], s.job_with_status(job_id, status));
            &&& new_job.status == status
            &&& new_job.client == old_job.client
            &&& new_job.freelancer == old_job.freelancer
            &&& new_job.token == old_job.token
            &&& new_job.token_type == old_job.token_type
            &&& new_job.budget == old_job.budget
            &&& new_job.fee == old_job.fee
            &&& new_job.title == old_job.title
            &&& new_job.description == old_job.description
            &&& new_job.category == old_job.category
            &&& new_job.deadline_ledger == old_job.deadline_ledger
        }),
{
}

/// Who may do what: a call succeeds only when its caller holds the role it
/// needs and the record is in the state it needs. Posting needs an
/// initialized contract and a positive budget; applying needs an open job;
/// hiring, completing and cancelling need the job's client, with the job
/// open, in progress and open; flagging needs the client or the hired
/// freelancer of a job in progress; settling needs the admin, a disputed
/// job and awards that add up to its budget plus fee. Initializing succeeds
/// only on a contract without an admin.
pub proof fn lemma_who_may_act(s: MarketState, caller: Address, job_id: u64, app_id: u64, budget: i128, a1: i128, a2: i128)
    ensures
        s.initialize_error() is None <==> s.admin is None,
        s.post_job_error(budget) is None ==> s.admin is Some && budget > 0,
        s.apply_to_job_error(job_id) is None ==> job_id < s.jobs.len()
            && s.jobs[job_id as int].status is Open,
        s.hire_error(caller, job_id, app_id) is None ==> job_id < s.jobs.len() && app_id
            < s.applications.len() && s.jobs[job_id as int].client == caller
            && s.jobs[job_id as int].status is Open && s.applications[app_id as int].job_id == job_id,
        s.complete_job_error(caller, job_id) is None ==> job_id < s.jobs.len()
            && s.jobs[job_id as int].client == caller && s.jobs[job_id as int].status is InProgress
            && s.jobs[job_id as int].freelancer is Some && s.admin is Some,
        s.cancel_job_error(caller, job_id) is None ==> job_id < s.jobs.len()
            && s.jobs[job_id as int].client == caller && s.jobs[job_id as int].status is Open,
        s.flag_dispute_error(caller, job_id) is None ==> job_id < s.jobs.len()
            && (caller == s.jobs[job_id as int].client || Some(caller) == s.jobs[job_id as int].freelancer)
            && s.jobs[job_id as int].status is InProgress,
        s.resolve_dispute_error(caller, job_id, a1, a2) is None ==> s.admin == Some(caller)
            && job_id < s.jobs.len() && s.jobs[job_id as int].status is Disputed
            && a1 + a2 == s.jobs[job_id as int].budget + s.jobs[job_id as int].fee,
        job_id < s.jobs.len() && s.jobs[job_id as int].client != caller ==> s.hire_error(caller, job_id, app_id)
            == Some(MarketError::NotClient) && s.complete_job_error(caller, job_id) == Some(
            MarketError::NotClient,
        ) && s.cancel_job_error(caller, job_id) == Some(MarketError::NotClient),
        s.admin is Some && s.admin != Some(caller) ==> s.resolve_dispute_error(caller, job_id, a1, a2)
            == Some(MarketError::NotAdmin),
{
}

/// Settling a dispute pays only out of escrow and only in the job's token:
/// the client receives its award and the freelancer theirs, each where
/// positive, whatever the other award is; nobody else receives anything.
pub proof fn lemma_settlement_pays_each_award(
    token: Address,
    client: Address,
    freelancer: Address,
    client_award: i128,
    freelancer_award: i128,
)
    ensures
        payouts_in(settlement_payouts(token, client, freelancer, client_award, freelancer_award), token),
        forall|who: Address| #[trigger]
            paid_to(settlement_payouts(token, client, freelancer, client_award, freelancer_award), who)
                == share_of(who, client, positive_part(client_award as int))
                + share_of(who, freelancer, positive_part(freelancer_award as int)),
{
    let ts = settlement_payouts(token, client, freelancer, client_award, freelancer_award);
    let pc = Transfer::Payout { token, to: client, amount: client_award };
    let pf = Transfer::Payout { token, to: freelancer, amount: freelancer_award };
    if client_award > 0 && freelancer_award > 0 {
        assert(ts =~= seq![pc, pf]);
    } else if client_award > 0 {
        assert(ts =~= seq![pc]);
    } else if freelancer_award > 0 {
        assert(ts =~= seq![pf]);
    } else {
        assert(ts =~= Seq::<Transfer>::empty());
    }
    assert forall|who: Address| #[trigger]
        paid_to(ts, who) == share_of(who, client, positive_part(client_award as int)) + share_of(
            who,
            freelancer,
            positive_part(freelancer_award as int),
        ) by {
        lemma_paid_to_none(who);
        lemma_paid_to_one(pc, who);
        lemma_paid_to_one(pf, who);
        lemma_paid_to_two(pc, pf, who);
    }
}

/// The job that `post_job` stores carries exactly the terms of the call: its
/// client, token, token type, budget, texts and deadline, no freelancer, the
/// platform fee on its budget, and the status `Open`.
pub proof fn lemma_posted_job_terms(
    s: MarketState,
    client: Address,
    token: Address,
    token_type: TokenType,
    budget: i128,
    title: String,
    description: String,
    category: String,
    deadline_ledger: u32,
)
    ensures
        ({
            let j = s.posted_job(
                client,
                token,
                token_type,
                budget,
                title,
                description,
                category,
                deadline_ledger,
            );
            &&& j.client == client
            &&& j.freelancer is None
            &&& j.token == token
            &&& j.token_type == token_type
            &&& j.budget == budget
            &&& j.fee == fee_for(budget as int, s.fee_bps as int) as i128
            &&& j.title == title
            &&& j.description == description
            &&& j.category == category
            &&& j.deadline_ledger == deadline_ledger
            &&& j.status is Open
        }),
{
}

/// In every reachable state, a job has at most one accepted application,
/// and its applicant is the job's freelancer.
pub proof fn lemma_one_hire_per_job(s: MarketState, a: int, b: int)
    requires
        s.wf(),
        0 <= a < s.applications.len(),
        0 <= b < s.applications.len(),
        s.applications[a].status is Accepted,
        s.applications[b].status is Accepted,
        s.applications[a].job_id == s.applications[b].job_id,
    ensures
        a == b,
        s.jobs[s.applications[a].job_id as int].freelancer == Some(s.applications[a].applicant),
{
    assert(s.application_wf(s.applications[a]));
}

impl MarketplaceContract {
    /// A freshly deployed contract, not yet initialized.
    pub fn new() -> (c: Self)
        ensures
            c@ == (MarketState {
                admin: None,
                fee_bps: 0,
                jobs: Seq::empty(),
                applications: Seq::empty(),
            }),
            c@.wf(),
    {
        MarketplaceContract { admin: None, fee_bps: 0, jobs: Vec::new(), applications: Vec::new() }
    }

    /// The contract over storage read back from the ledger.
    pub fn from_parts(
        admin: Option<Address>,
        fee_bps: u32,
        jobs: Vec<Job>,
        applications: Vec<Application>,
    ) -> (c: Self)
        ensures
            c@ == (MarketState { admin, fee_bps, jobs: jobs@, applications: applications@ }),
    {
        MarketplaceContract { admin, fee_bps, jobs, applications }
    }

    /// The storage, to be written back to the ledger.
    pub fn into_parts(self) -> (r: (Option<Address>, u32, Vec<Job>, Vec<Application>))
        ensures
            r.0 == self@.admin,
            r.1 == self@.fee_bps,
            r.2@ == self@.jobs,
            r.3@ == self@.applications,
    {
        (self.admin, self.fee_bps, self.jobs, self.applications)
    }

    /// One-time initializer: sets the admin and the platform fee in basis
    /// points. Refused once an admin is set.
    pub fn initialize(&mut self, admin: Address, fee_bps: u32) -> (r: Result<(), MarketError>)
        ensures
            match r {
                Ok(()) => old(self)@.initialize_error() is None && final(self)@ == (MarketState {
                    admin: Some(admin),
                    fee_bps,
                    ..old(self)@
                }),
                Err(e) => old(self)@.initialize_error() == Some(e) && final(self)@ == old(self)@,
            },
            old(self)@.wf() ==> final(self)@.wf(),
            final(self)@.evolves_from(old(self)@),
            final(self)@.escrow_moved_by(old(self)@, Seq::empty()),
    {
        if self.admin.is_some() {
            return Err(MarketError::AlreadyInitialized);
        }
        self.admin = Some(admin);
        self.fee_bps = fee_bps;
        proof {
            assert forall|t: Address| #[trigger]
                self@.escrow(t) == old(self)@.escrow(t) + net_inflow(Seq::empty(), t) by {}
        }
        Ok(())
    }

    /// A client posts a job with a positive budget. Its budget plus the
    /// platform fee on it move from the client into escrow; the job gets the
    /// next job id.
    pub fn post_job(
        &mut self,
        client: Address,
        token: Address,
        token_type: TokenType,
        budget: i128,
        title: String,
        description: String,
        category: String,
        deadline_ledger: u32,
    ) -> (r: Result<(u64, Vec<Transfer>, MarketEvent), MarketError>)
        ensures
            match r {
                Ok((id, ts, ev)) => {
                    let job = old(self)@.posted_job(
                        client,
                        token,
                        token_type,
                        budget,
                        title,
                        description,
                        category,
                        deadline_ledger,
                    );
                    &&& old(self)@.post_job_error(budget) is None
                    &&& id == old(self)@.jobs.len()
                    &&& final(self)@ == (MarketState { jobs: old(self)@.jobs.push(job), ..old(self)@ })
                    &&& final(self)@.jobs[id as int].client == client
                    &&& final(self)@.jobs[id as int].freelancer is None
                    &&& final(self)@.jobs[id as int].token == token
                    &&& final(self)@.jobs[id as int].token_type == token_type
                    &&& final(self)@.jobs[id as int].budget == budget
                    &&& final(self)@.jobs[id as int].fee == fee_for(budget as int, old(self)@.fee_bps as int)
                    &&& final(self)@.jobs[id as int].title == title
                    &&& final(self)@.jobs[id as int].description == description
                    &&& final(self)@.jobs[id as int].category == category
                    &&& final(self)@.jobs[id as int].deadline_ledger == deadline_ledger
                    &&& final(self)@.jobs[id as int].status is Open
                    &&& ts@ == seq![Transfer::Deposit { token, from: client, amount: (budget + job.fee) as i128 }]
                    &&& ev == (MarketEvent::JobPosted { client, job_id: id, token, budget })
                    &&& final(self)@.escrow_moved_by(old(self)@, ts@)
                },
                Err(e) => old(self)@.post_job_error(budget) == Some(e) && final(self)@ == old(self)@,
            },
            old(self)@.wf() ==> final(self)@.wf(),
            final(self)@.evolves_from(old(self)@),
    {
        if self.admin.is_none() {
            return Err(MarketError::NotInitialized);
        }
        if budget <= 0 {
            return Err(MarketError::InvalidBudget);
        }
        let fee = match compute_fee(budget, self.fee_bps) {
            Some(f) => f,
            None => return Err(MarketError::Overflow),
        };
        let total = match budget.checked_add(fee) {
            Some(t) => t,
            None => return Err(MarketError::Overflow),
        };
        let id = self.jobs.len() as u64;
        if id == u64::MAX {
            return Err(MarketError::Overflow);
        }
        let job = Job {
            client,
            freelancer: None,
            token,
            token_type,
            budget,
            fee,
            title,
            description,
            category,
            deadline_ledger,
            status: JobStatus::Open,
        };
        let ghost stored = job;
        self.jobs.push(job);
        let mut ts: Vec<Transfer> = Vec::new();
        ts.push(Transfer::Deposit { token, from: client, amount: total });
        proof {
            assert(ts@ =~= seq![Transfer::Deposit { token, from: client, amount: total }]);
            assert forall|t: Address| #[trigger]
                self@.escrow(t) == old(self)@.escrow(t) + net_inflow(ts@, t) by {
                lemma_escrow_push(old(self)@.jobs, stored, t);
                lemma_net_inflow_one(Transfer::Deposit { token, from: client, amount: total }, t);
            }
            if old(self)@.wf() {
                assert forall|i: int| 0 <= i < self@.jobs.len() implies #[trigger] self@.job_wf(
                    self@.jobs[i],
                ) by {
                    if i < old(self)@.jobs.len() {
                        assert(old(self)@.job_wf(old(self)@.jobs[i]));
                    }
                }
                assert forall|i: int|
                    0 <= i < self@.applications.len() implies #[trigger] self@.application_wf(
                    self@.applications[i],
                ) by {
                    assert(old(self)@.application_wf(old(self)@.applications[i]));
                }
            }
            assert forall|i: int| 0 <= i < old(self)@.jobs.len() implies #[trigger] job_advances(
                old(self)@.jobs[i],
                self@.jobs[i],
            ) by {
                assert(self@.jobs[i] == old(self)@.jobs[i]);
            }
        }
        Ok((id, ts, MarketEvent::JobPosted { client, job_id: id, token, budget }))
    }

    /// A freelancer applies to an open job with a proposal and a bid; the
    /// application gets the next application id and is pending.
    pub fn apply_to_job(
        &mut self,
        applicant: Address,
        job_id: u64,
        proposal: String,
        bid_amount: i128,
    ) -> (r: Result<(u64, MarketEvent), MarketError>)
        ensures
            match r {
                Ok((app_id, ev)) => {
                    &&& old(self)@.apply_to_job_error(job_id) is None
                    &&& app_id == old(self)@.applications.len()
                    &&& final(self)@ == (MarketState {
                        applications: old(self)@.applications.push(
                            Application {
                                job_id,
                                applicant,
                                proposal,
                                bid_amount,
                                status: ApplicationStatus::Pending,
                            },
                        ),
                        ..old(self)@
                    })
                    &&& ev == (MarketEvent::Applied { applicant, app_id, job_id, bid_amount })
                },
                Err(e) => old(self)@.apply_to_job_error(job_id) == Some(e) && final(self)@
                    == old(self)@,
            },
            final(self)@.escrow_moved_by(old(self)@, Seq::empty()),
            old(self)@.wf() ==> final(self)@.wf(),
            final(self)@.evolves_from(old(self)@),
    {
        if job_id >= self.jobs.len() as u64 {
            return Err(MarketError::JobNotFound);
        }
        if self.jobs[job_id as usize].status != JobStatus::Open {
            return Err(MarketError::JobNotOpen);
        }
        if self.admin.is_none() {
            return Err(MarketError::NotInitialized);
        }
        let app_id = self.applications.len() as u64;
        if app_id == u64::MAX {
            return Err(MarketError::Overflow);
        }
        self.applications.push(
            Application {
                job_id,
                applicant,
                proposal,
                bid_amount,
                status: ApplicationStatus::Pending,
            },
        );
        proof {
            assert forall|t: Address| #[trigger]
                self@.escrow(t) == old(self)@.escrow(t) + net_inflow(Seq::empty(), t) by {}
            if old(self)@.wf() {
                assert forall|i: int| 0 <= i < self@.jobs.len() implies #[trigger] self@.job_wf(
                    self@.jobs[i],
                ) by {
                    assert(old(self)@.job_wf(old(self)@.jobs[i]));
                }
                assert forall|i: int|
                    0 <= i < self@.applications.len() implies #[trigger] self@.application_wf(
                    self@.applications[i],
                ) by {
                    if i < old(self)@.applications.len() {
                        assert(old(self)@.application_wf(old(self)@.applications[i]));
                    }
                }
                assert forall|a: int, b: int|
                    0 <= a < self@.applications.len() && 0 <= b < self@.applications.len()
                        && (#[trigger] self@.applications[a]).status is Accepted
                        && (#[trigger] self@.applications[b]).status is Accepted
                        && self@.applications[a].job_id == self@.applications[b].job_id implies a
                    == b by {
                    assert(old(self)@.applications[a] == self@.applications[a]);
                    assert(old(self)@.applications[b] == self@.applications[b]);
                }
            }
            assert forall|i: int|
                0 <= i < old(self)@.applications.len() implies #[trigger] application_advances(
                old(self)@.applications[i],
                self@.applications[i],
            ) by {
                assert(self@.applications[i] == old(self)@.applications[i]);
            }
        }
        Ok((app_id, MarketEvent::Applied { applicant, app_id, job_id, bid_amount }))
    }

    /// The client hires the applicant of one of the job's applications:
    /// the application is accepted, the applicant becomes the job's
    /// freelancer and the job is in progress.
    pub fn hire_freelancer(&mut self, client: Address, job_id: u64, app_id: u64) -> (r: Result<
        MarketEvent,
        MarketError,
    >)
        ensures
            match r {
                Ok(ev) => {
                    let job = old(self)@.jobs[job_id as int];
                    let app = old(self)@.applications[app_id as int];
                    &&& old(self)@.hire_error(client, job_id, app_id) is None
                    &&& final(self)@ == (MarketState {
                        jobs: old(self)@.jobs.update(
                            job_id as int,
                            Job {
                                freelancer: Some(app.applicant),
                                status: JobStatus::InProgress,
                                ..job
                            },
                        ),
                        applications: old(self)@.applications.update(
                            app_id as int,
                            Application { status: ApplicationStatus::Accepted, ..app },
                        ),
                        ..old(self)@
                    })
                    &&& ev == (MarketEvent::FreelancerHired {
                        client,
                        job_id,
                        freelancer: app.applicant,
                    })
                },
                Err(e) => old(self)@.hire_error(client, job_id, app_id) == Some(e) && final(self)@
                    == old(self)@,
            },
            final(self)@.escrow_moved_by(old(self)@, Seq::empty()),
            old(self)@.wf() ==> final(self)@.wf(),
            final(self)@.evolves_from(old(self)@),
    {
        if job_id >= self.jobs.len() as u64 {
            return Err(MarketError::JobNotFound);
        }
        let j = job_id as usize;
        if self.jobs[j].client != client {
            return Err(MarketError::NotClient);
        }
        if self.jobs[j].status != JobStatus::Open {
            return Err(MarketError::JobNotOpen);
        }
        if app_id >= self.applications.len() as u64 {
            return Err(MarketError::AppNotFound);
        }
        let a = app_id as usize;
        if self.applications[a].job_id != job_id {
            return Err(MarketError::AppJobMismatch);
        }
        let applicant = self.applications[a].applicant;
        let ghost mid = MarketState {
            applications: old(self)@.applications.update(
                a as int,
                Application { status: ApplicationStatus::Accepted, ..old(self)@.applications[a as int] },
            ),
            ..old(self)@
        };
        self.applications[a].status = ApplicationStatus::Accepted;
        self.jobs[j].freelancer = Some(applicant);
        self.jobs[j].status = JobStatus::InProgress;
        proof {
            let o = old(self)@;
            let n = self@;
            assert(n.jobs =~= o.jobs.update(j as int, n.jobs[j as int]));
            assert(n.applications =~= mid.applications);
            assert(n == MarketState { jobs: mid.jobs.update(j as int, n.jobs[j as int]), ..mid });
            lemma_replace_job(mid, j as int, n.jobs[j as int]);
            assert forall|t: Address| #[trigger]
                n.escrow(t) == o.escrow(t) + net_inflow(Seq::empty(), t) by {
                assert(mid.escrow(t) == o.escrow(t));
            }
            assert forall|i: int|
                0 <= i < o.applications.len() implies #[trigger] application_advances(
                o.applications[i],
                n.applications[i],
            ) by {
                if i != a {
                    assert(n.applications[i] == o.applications[i]);
                } else {
                    if o.wf() {
                        assert(o.application_wf(o.applications[i]));
                    }
                }
            }
            if o.wf() {
                assert(o.job_wf(o.jobs[j as int]));
                assert forall|i: int| 0 <= i < n.jobs.len() implies #[trigger] n.job_wf(
                    n.jobs[i],
                ) by {
                    if i != j {
                        assert(o.job_wf(o.jobs[i]));
                    }
                }
                assert forall|i: int|
                    0 <= i < n.applications.len() implies #[trigger] n.application_wf(
                    n.applications[i],
                ) by {
                    assert(o.application_wf(o.applications[i]));
                    if i != a && n.applications[i].status is Accepted && n.applications[i].job_id
                        == job_id {
                        assert(o.jobs[j as int].freelancer is None);
                    }
                }
                assert forall|x: int, y: int|
                    0 <= x < n.applications.len() && 0 <= y < n.applications.len()
                        && (#[trigger] n.applications[x]).status is Accepted
                        && (#[trigger] n.applications[y]).status is Accepted
                        && n.applications[x].job_id == n.applications[y].job_id implies x
                    == y by {
                    assert(o.application_wf(o.applications[x]));
                    assert(o.application_wf(o.applications[y]));
                    if x != a && y != a {
                        assert(o.applications[x] == n.applications[x]);
                        assert(o.applications[y] == n.applications[y]);
                    }
                }
            }
        }
        Ok(MarketEvent::FreelancerHired { client, job_id, freelancer: applicant })
    }

    /// The client marks an in-progress job complete: the budget is paid to
    /// the freelancer and the fee to the admin.
    pub fn complete_job(&mut self, client: Address, job_id: u64) -> (r: Result<
        (Vec<Transfer>, MarketEvent),
        MarketError,
    >)
        ensures
            match r {
                Ok((ts, ev)) => {
                    let job = old(self)@.jobs[job_id as int];
                    let freelancer = job.freelancer.unwrap();
                    &&& old(self)@.complete_job_error(client, job_id) is None
                    &&& final(self)@ == (MarketState {
                        jobs: old(self)@.jobs.update(
                            job_id as int,
                            old(self)@.job_with_status(job_id, JobStatus::Completed),
                        ),
                        ..old(self)@
                    })
                    &&& ts@ == seq![
                        Transfer::Payout { token: job.token, to: freelancer, amount: job.budget },
                        Transfer::Payout { token: job.token, to: old(self)@.admin.unwrap(), amount: job.fee },
                    ]
                    &&& ev == (MarketEvent::JobCompleted {
                        client,
                        job_id,
                        freelancer,
                        budget: job.budget,
                    })
                    &&& final(self)@.escrow_moved_by(old(self)@, ts@)
                },
                Err(e) => old(self)@.complete_job_error(client, job_id) == Some(e) && final(self)@
                    == old(self)@,
            },
            old(self)@.wf() ==> r != Err::<(Vec<Transfer>, MarketEvent), MarketError>(
                MarketError::NoFreelancer,
            ) && r != Err::<(Vec<Transfer>, MarketEvent), MarketError>(
                MarketError::NotInitialized,
            ),
            old(self)@.wf() ==> final(self)@.wf(),
            final(self)@.evolves_from(old(self)@),
    {
        if job_id >= self.jobs.len() as u64 {
            return Err(MarketError::JobNotFound);
        }
        let j = job_id as usize;
        if self.jobs[j].client != client {
            return Err(MarketError::NotClient);
        }
        if self.jobs[j].status != JobStatus::InProgress {
            proof {
                if old(self)@.wf() {
                    assert(old(self)@.job_wf(old(self)@.jobs[j as int]));
                }
            }
            return Err(MarketError::NotInProgress);
        }
        let freelancer = match self.jobs[j].freelancer {
            Some(f) => f,
            None => {
                proof {
                    if old(self)@.wf() {
                        assert(old(self)@.job_wf(old(self)@.jobs[j as int]));
                    }
                }
                return Err(MarketError::NoFreelancer);
            },
        };
        let admin = match self.admin {
            Some(a) => a,
            None => return Err(MarketError::NotInitialized),
        };
        let token = self.jobs[j].token;
        let budget = self.jobs[j].budget;
        let fee = self.jobs[j].fee;
        self.jobs[j].status = JobStatus::Completed;
        let mut ts: Vec<Transfer> = Vec::new();
        ts.push(Transfer::Payout { token, to: freelancer, amount: budget });
        ts.push(Transfer::Payout { token, to: admin, amount: fee });
        proof {
            let o = old(self)@;
            let nj = self@.jobs[j as int];
            lemma_replace_job(o, j as int, nj);
            assert(ts@ =~= seq![
                Transfer::Payout { token, to: freelancer, amount: budget },
                Transfer::Payout { token, to: admin, amount: fee },
            ]);
            assert forall|t: Address| #[trigger]
                self@.escrow(t) == o.escrow(t) + net_inflow(ts@, t) by {
                lemma_net_inflow_two(
                    Transfer::Payout { token, to: freelancer, amount: budget },
                    Transfer::Payout { token, to: admin, amount: fee },
                    t,
                );
            }
            if o.wf() {
                assert(o.job_wf(o.jobs[j as int]));
                lemma_replace_job_wf(o, j as int, nj);
            }
        }
        Ok((ts, MarketEvent::JobCompleted { client, job_id, freelancer, budget }))
    }

    /// The client cancels a job that is still open: budget and fee go back
    /// to the client.
    pub fn cancel_job(&mut self, client: Address, job_id: u64) -> (r: Result<
        (Vec<Transfer>, MarketEvent),
        MarketError,
    >)
        ensures
            match r {
                Ok((ts, ev)) => {
                    let job = old(self)@.jobs[job_id as int];
                    let refund = (job.budget + job.fee) as i128;
                    &&& old(self)@.cancel_job_error(client, job_id) is None
                    &&& final(self)@ == (MarketState {
                        jobs: old(self)@.jobs.update(
                            job_id as int,
                            old(self)@.job_with_status(job_id, JobStatus::Cancelled),
                        ),
                        ..old(self)@
                    })
                    &&& ts@ == seq![Transfer::Payout { token: job.token, to: client, amount: refund }]
                    &&& ev == (MarketEvent::JobCancelled { client, job_id, refund })
                    &&& final(self)@.escrow_moved_by(old(self)@, ts@)
                },
                Err(e) => old(self)@.cancel_job_error(client, job_id) == Some(e) && final(self)@
                    == old(self)@,
            },
            old(self)@.wf() ==> r != Err::<(Vec<Transfer>, MarketEvent), MarketError>(
                MarketError::Overflow,
            ),
            old(self)@.wf() ==> final(self)@.wf(),
            final(self)@.evolves_from(old(self)@),
    {
        if job_id >= self.jobs.len() as u64 {
            return Err(MarketError::JobNotFound);
        }
        let j = job_id as usize;
        if self.jobs[j].client != client {
            return Err(MarketError::NotClient);
        }
        if self.jobs[j].status != JobStatus::Open {
            return Err(MarketError::CanOnlyCancelOpen);
        }
        let refund = match self.jobs[j].budget.checked_add(self.jobs[j].fee) {
            Some(x) => x,
            None => {
                proof {
                    if old(self)@.wf() {
                        assert(old(self)@.job_wf(old(self)@.jobs[j as int]));
                    }
                }
                return Err(MarketError::Overflow);
            },
        };
        let token = self.jobs[j].token;
        self.jobs[j].status = JobStatus::Cancelled;
        let mut ts: Vec<Transfer> = Vec::new();
        ts.push(Transfer::Payout { token, to: client, amount: refund });
        proof {
            let o = old(self)@;
            let nj = self@.jobs[j as int];
            lemma_replace_job(o, j as int, nj);
            assert(ts@ =~= seq![Transfer::Payout { token, to: client, amount: refund }]);
            assert forall|t: Address| #[trigger]
                self@.escrow(t) == o.escrow(t) + net_inflow(ts@, t) by {
                lemma_net_inflow_one(Transfer::Payout { token, to: client, amount: refund }, t);
            }
            if o.wf() {
                assert(o.job_wf(o.jobs[j as int]));
                lemma_replace_job_wf(o, j as int, nj);
            }
        }
        Ok((ts, MarketEvent::JobCancelled { client, job_id, refund }))
    }

    /// The client or the freelancer of an in-progress job flags a dispute.
    pub fn flag_dispute(&mut self, caller: Address, job_id: u64) -> (r: Result<
        MarketEvent,
        MarketError,
    >)
        ensures
            match r {
                Ok(ev) => {
                    &&& old(self)@.flag_dispute_error(caller, job_id) is None
                    &&& final(self)@ == (MarketState {
                        jobs: old(self)@.jobs.update(
                            job_id as int,
                            old(self)@.job_with_status(job_id, JobStatus::Disputed),
                        ),
                        ..old(self)@
                    })
                    &&& ev == (MarketEvent::DisputeFlagged { caller, job_id })
                },
                Err(e) => old(self)@.flag_dispute_error(caller, job_id) == Some(e) && final(self)@
                    == old(self)@,
            },
            final(self)@.escrow_moved_by(old(self)@, Seq::empty()),
            old(self)@.wf() ==> final(self)@.wf(),
            final(self)@.evolves_from(old(self)@),
    {
        if job_id >= self.jobs.len() as u64 {
            return Err(MarketError::JobNotFound);
        }
        let j = job_id as usize;
        let freelancer = match self.jobs[j].freelancer {
            Some(f) => f,
            None => return Err(MarketError::NoFreelancer),
        };
        if caller != self.jobs[j].client && caller != freelancer {
            return Err(MarketError::NotAParty);
        }
        if self.jobs[j].status != JobStatus::InProgress {
            return Err(MarketError::NotInProgress);
        }
        self.jobs[j].status = JobStatus::Disputed;
        proof {
            let o = old(self)@;
            let nj = self@.jobs[j as int];
            lemma_replace_job(o, j as int, nj);
            assert forall|t: Address| #[trigger]
                self@.escrow(t) == o.escrow(t) + net_inflow(Seq::empty(), t) by {}
            if o.wf() {
                assert(o.job_wf(o.jobs[j as int]));
                lemma_replace_job_wf(o, j as int, nj);
            }
        }
        Ok(MarketEvent::DisputeFlagged { caller, job_id })
    }

    /// The admin settles a disputed job by splitting its budget plus fee
    /// between the client and the freelancer; each positive award is paid
    /// out and the job is completed.
    pub fn resolve_dispute(
        &mut self,
        admin: Address,
        job_id: u64,
        client_award: i128,
        freelancer_award: i128,
    ) -> (r: Result<(Vec<Transfer>, MarketEvent), MarketError>)
        ensures
            match r {
                Ok((ts, ev)) => {
                    let job = old(self)@.jobs[job_id as int];
                    &&& old(self)@.resolve_dispute_error(admin, job_id, client_award, freelancer_award)
                        is None
                    &&& final(self)@ == (MarketState {
                        jobs: old(self)@.jobs.update(
                            job_id as int,
                            old(self)@.job_with_status(job_id, JobStatus::Completed),
                        ),
                        ..old(self)@
                    })
                    &&& ts@ == settlement_payouts(
                        job.token,
                        job.client,
                        job.freelancer.unwrap(),
                        client_award,
                        freelancer_award,
                    )
                    &&& payouts_in(ts@, job.token)
                    &&& forall|who: Address| #[trigger]
                        paid_to(ts@, who) == share_of(who, job.client, positive_part(client_award as int))
                            + share_of(who, job.freelancer.unwrap(), positive_part(freelancer_award as int))
                    &&& ev == (MarketEvent::DisputeResolved {
                        admin,
                        job_id,
                        client_award,
                        freelancer_award,
                    })
                    &&& (client_award >= 0 && freelancer_award >= 0
                        ==> final(self)@.escrow_moved_by(old(self)@, ts@))
                },
                Err(e) => old(self)@.resolve_dispute_error(
                    admin,
                    job_id,
                    client_award,
                    freelancer_award,
                ) == Some(e) && final(self)@ == old(self)@,
            },
            old(self)@.wf() ==> r != Err::<(Vec<Transfer>, MarketEvent), MarketError>(
                MarketError::NoFreelancer,
            ),
            old(self)@.wf() ==> final(self)@.wf(),
            final(self)@.evolves_from(old(self)@),
    {
        let stored_admin = match self.admin {
            Some(a) => a,
            None => return Err(MarketError::NotInitialized),
        };
        if admin != stored_admin {
            return Err(MarketError::NotAdmin);
        }
        if job_id >= self.jobs.len() as u64 {
            return Err(MarketError::JobNotFound);
        }
        let j = job_id as usize;
        if self.jobs[j].status != JobStatus::Disputed {
            return Err(MarketError::NotDisputed);
        }
        let total = match self.jobs[j].budget.checked_add(self.jobs[j].fee) {
            Some(x) => x,
            None => return Err(MarketError::Overflow),
        };
        let sum = match client_award.checked_add(freelancer_award) {
            Some(x) => x,
            None => return Err(MarketError::Overflow),
        };
        if sum != total {
            return Err(MarketError::AwardsMismatch);
        }
        let freelancer = match self.jobs[j].freelancer {
            Some(f) => f,
            None => {
                proof {
                    if old(self)@.wf() {
                        assert(old(self)@.job_wf(old(self)@.jobs[j as int]));
                    }
                }
                return Err(MarketError::NoFreelancer);
            },
        };
        let token = self.jobs[j].token;
        let job_client = self.jobs[j].client;
        let mut ts: Vec<Transfer> = Vec::new();
        if client_award > 0 {
            ts.push(Transfer::Payout { token, to: job_client, amount: client_award });
        }
        if freelancer_award > 0 {
            ts.push(Transfer::Payout { token, to: freelancer, amount: freelancer_award });
        }
        self.jobs[j].status = JobStatus::Completed;
        proof {
            let o = old(self)@;
            let nj = self@.jobs[j as int];
            let pc = Transfer::Payout { token, to: job_client, amount: client_award };
            let pf = Transfer::Payout { token, to: freelancer, amount: freelancer_award };
            lemma_replace_job(o, j as int, nj);
            if client_award > 0 && freelancer_award > 0 {
                assert(ts@ =~= seq![pc, pf]);
            } else if client_award > 0 {
                assert(ts@ =~= seq![pc]);
            } else if freelancer_award > 0 {
                assert(ts@ =~= seq![pf]);
            } else {
                assert(ts@ =~= Seq::<Transfer>::empty());
            }
            assert forall|who: Address| #[trigger]
                paid_to(ts@, who) == share_of(who, job_client, positive_part(client_award as int))
                    + share_of(who, freelancer, positive_part(freelancer_award as int)) by {
                lemma_paid_to_none(who);
                lemma_paid_to_one(pc, who);
                lemma_paid_to_one(pf, who);
                lemma_paid_to_two(pc, pf, who);
            }
            assert(ts@ =~= settlement_payouts(token, job_client, freelancer, client_award, freelancer_award));
            if client_award >= 0 && freelancer_award >= 0 {
                assert forall|t: Address| #[trigger]
                    self@.escrow(t) == o.escrow(t) + net_inflow(ts@, t) by {
                    lemma_net_inflow_one(pc, t);
                    lemma_net_inflow_one(pf, t);
                    lemma_net_inflow_two(pc, pf, t);
                }
            }
            if o.wf() {
                assert(o.job_wf(o.jobs[j as int]));
                lemma_replace_job_wf(o, j as int, nj);
            }
        }
        Ok((ts, MarketEvent::DisputeResolved { admin, job_id, client_award, freelancer_award }))
    }

    /// The job with id `job_id`.
    pub fn get_job(&self, job_id: u64) -> (r: Result<&Job, MarketError>)
        ensures
            match r {
                Ok(job) => job_id < self@.jobs.len() && *job == self@.jobs[job_id as int],
                Err(e) => job_id >= self@.jobs.len() && e == MarketError::JobNotFound,
            },
    {
        if job_id >= self.jobs.len() as u64 {
            return Err(MarketError::JobNotFound);
        }
        Ok(&self.jobs[job_id as usize])
    }

    /// The application with id `app_id`.
    pub fn get_application(&self, app_id: u64) -> (r: Result<&Application, MarketError>)
        ensures
            match r {
                Ok(app) => app_id < self@.applications.len() && *app == self@.applications[app_id as int],
                Err(e) => app_id >= self@.applications.len() && e == MarketError::AppNotFound,
            },
    {
        if app_id >= self.applications.len() as u64 {
            return Err(MarketError::AppNotFound);
        }
        Ok(&self.applications[app_id as usize])
    }

    /// The platform fee in basis points, once initialized.
    pub fn get_fee_bps(&self) -> (r: Result<u32, MarketError>)
        ensures
            match r {
                Ok(bps) => self@.admin is Some && bps == self@.fee_bps,
                Err(e) => self@.admin is None && e == MarketError::NotInitialized,
            },
    {
        if self.admin.is_none() {
            return Err(MarketError::NotInitialized);
        }
        Ok(self.fee_bps)
    }
}

} // verus!

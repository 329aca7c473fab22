use std::collections::HashMap;

use gig_marketplace::common::{Address, Transfer};
use gig_marketplace::marketplace::{
    JobStatus, ApplicationStatus, MarketError, MarketEvent, MarketplaceContract, TokenType,
};

const ESCROW: Address = Address(u64::MAX);

/// Token balances, moved by the transfers that the contract asks for.
struct Ledger {
    balances: HashMap<(Address, Address), i128>,
}

impl Ledger {
    fn new() -> Self {
        Ledger { balances: HashMap::new() }
    }

    fn mint(&mut self, token: Address, to: Address, amount: i128) {
        *self.balances.entry((token, to)).or_insert(0) += amount;
    }

    fn balance(&self, token: Address, who: Address) -> i128 {
        *self.balances.get(&(token, who)).unwrap_or(&0)
    }

    fn apply(&mut self, transfers: &[Transfer]) {
        for t in transfers {
            match *t {
                Transfer::Deposit { token, from, amount } => {
                    assert!(self.balance(token, from) >= amount, "insufficient balance");
                    self.mint(token, from, -amount);
                    self.mint(token, ESCROW, amount);
                }
                Transfer::Payout { token, to, amount } => {
                    self.mint(token, ESCROW, -amount);
                    self.mint(token, to, amount);
                }
            }
        }
    }
}

struct Setup {
    mp: MarketplaceContract,
    ledger: Ledger,
    admin: Address,
    client: Address,
    freelancer: Address,
    token: Address,
}

fn setup() -> Setup {
    Setup {
        mp: MarketplaceContract::new(),
        ledger: Ledger::new(),
        admin: Address(1),
        client: Address(2),
        freelancer: Address(3),
        token: Address(100),
    }
}

fn post(s: &mut Setup, token_type: TokenType, budget: i128, deadline: u32) -> u64 {
    let (id, ts, _) = s
        .mp
        .post_job(
            s.client,
            s.token,
            token_type,
            budget,
            "t".to_string(),
            "d".to_string(),
            "c".to_string(),
            deadline,
        )
        .unwrap();
    s.ledger.apply(&ts);
    id
}

#[test]
fn test_post_and_apply_and_hire_and_complete() {
    let mut s = setup();
    s.mp.initialize(s.admin, 250u32).unwrap(); // 2.5% fee

    s.ledger.mint(s.token, s.client, 11_000);

    let (job_id, ts, _) = s
        .mp
        .post_job(
            s.client,
            s.token,
            TokenType::USDC,
            10_000i128,
            "Build a dApp".to_string(),
            "Full-stack Soroban dApp".to_string(),
            "Development".to_string(),
            1000u32,
        )
        .unwrap();
    s.ledger.apply(&ts);
    assert_eq!(job_id, 0);

    let (app_id, _) = s
        .mp
        .apply_to_job(s.freelancer, job_id, "I can do this".to_string(), 10_000i128)
        .unwrap();
    assert_eq!(app_id, 0);

    s.mp.hire_freelancer(s.client, job_id, app_id).unwrap();
    let job = s.mp.get_job(job_id).unwrap();
    assert_eq!(job.status, JobStatus::InProgress);

    let (ts, _) = s.mp.complete_job(s.client, job_id).unwrap();
    s.ledger.apply(&ts);
    let job = s.mp.get_job(job_id).unwrap();
    assert_eq!(job.status, JobStatus::Completed);

    assert_eq!(s.ledger.balance(s.token, s.freelancer), 10_000);
    assert_eq!(s.ledger.balance(s.token, s.admin), 250);
}

#[test]
fn test_cancel_open_job_refunds() {
    let mut s = setup();
    s.mp.initialize(s.admin, 250u32).unwrap();
    s.ledger.mint(s.token, s.client, 10_250);
    let job_id = post(&mut s, TokenType::XLM, 10_000i128, 500u32);
    let (ts, _) = s.mp.cancel_job(s.client, job_id).unwrap();
    s.ledger.apply(&ts);
    assert_eq!(s.ledger.balance(s.token, s.client), 10_250);
}

#[test]
fn test_dispute_and_resolve() {
    let mut s = setup();
    s.mp.initialize(s.admin, 0u32).unwrap();
    s.ledger.mint(s.token, s.client, 10_000);
    let job_id = post(&mut s, TokenType::Custom, 10_000i128, 500u32);
    let (app_id, _) = s.mp.apply_to_job(s.freelancer, job_id, "p".to_string(), 10_000i128).unwrap();
    s.mp.hire_freelancer(s.client, job_id, app_id).unwrap();
    s.mp.flag_dispute(s.client, job_id).unwrap();
    let (ts, _) = s.mp.resolve_dispute(s.admin, job_id, 4_000i128, 6_000i128).unwrap();
    s.ledger.apply(&ts);
    assert_eq!(s.ledger.balance(s.token, s.client), 4_000);
    assert_eq!(s.ledger.balance(s.token, s.freelancer), 6_000);
}

#[test]
fn market_initialize_twice_is_refused() {
    let mut s = setup();
    assert_eq!(s.mp.initialize(s.admin, 250), Ok(()));
    assert_eq!(s.mp.initialize(Address(9), 100), Err(MarketError::AlreadyInitialized));
    assert_eq!(s.mp.get_fee_bps(), Ok(250));
}

#[test]
fn market_calls_before_initialize_are_refused() {
    let mut s = setup();
    assert_eq!(s.mp.get_fee_bps(), Err(MarketError::NotInitialized));
    let r = s.mp.post_job(
        s.client,
        s.token,
        TokenType::USDC,
        100,
        "t".to_string(),
        "d".to_string(),
        "c".to_string(),
        1,
    );
    assert_eq!(r.err(), Some(MarketError::NotInitialized));
    assert_eq!(
        s.mp.resolve_dispute(s.admin, 0, 0, 0).err(),
        Some(MarketError::NotInitialized)
    );
    assert_eq!(s.mp.get_job(0).err(), Some(MarketError::JobNotFound));
}

#[test]
fn market_fee_is_rounded_toward_zero() {
    let mut s = setup();
    s.mp.initialize(s.admin, 250).unwrap();
    // 999 * 250 / 10_000 = 24.975
    let (_, ts, ev) = s
        .mp
        .post_job(s.client, s.token, TokenType::USDC, 999, "t".to_string(), "d".to_string(), "c".to_string(), 5)
        .unwrap();
    assert_eq!(s.mp.get_job(0).unwrap().fee, 24);
    assert_eq!(ts, vec![Transfer::Deposit { token: s.token, from: s.client, amount: 1023 }]);
    assert_eq!(ev, MarketEvent::JobPosted { client: s.client, job_id: 0, token: s.token, budget: 999 });
    // 1 * 250 / 10_000 = 0.025
    s.mp
        .post_job(s.client, s.token, TokenType::USDC, 1, "t".to_string(), "d".to_string(), "c".to_string(), 5)
        .unwrap();
    assert_eq!(s.mp.get_job(1).unwrap().fee, 0);
}

#[test]
fn market_zero_or_negative_budget_is_refused() {
    let mut s = setup();
    s.mp.initialize(s.admin, 250).unwrap();
    for budget in [0i128, -1, -999, i128::MIN] {
        let r = s.mp.post_job(
            s.client,
            s.token,
            TokenType::USDC,
            budget,
            "t".to_string(),
            "d".to_string(),
            "c".to_string(),
            5,
        );
        assert_eq!(r.err(), Some(MarketError::InvalidBudget));
    }
    assert_eq!(s.mp.get_job(0).err(), Some(MarketError::JobNotFound));
    // the next accepted job still gets the first id
    s.ledger.mint(s.token, s.client, 1_000);
    assert_eq!(post(&mut s, TokenType::USDC, 100, 1), 0);
}

#[test]
fn market_fee_overflow_is_refused() {
    let mut s = setup();
    s.mp.initialize(s.admin, 10_000).unwrap();
    let r = s.mp.post_job(
        s.client,
        s.token,
        TokenType::USDC,
        i128::MAX / 2,
        "t".to_string(),
        "d".to_string(),
        "c".to_string(),
        5,
    );
    assert_eq!(r.err(), Some(MarketError::Overflow));
    assert_eq!(s.mp.get_job(0).err(), Some(MarketError::JobNotFound));
}

#[test]
fn market_ids_are_sequential() {
    let mut s = setup();
    s.mp.initialize(s.admin, 100).unwrap();
    s.ledger.mint(s.token, s.client, 1_000_000);
    assert_eq!(post(&mut s, TokenType::USDC, 100, 1), 0);
    assert_eq!(post(&mut s, TokenType::USDC, 100, 1), 1);
    assert_eq!(post(&mut s, TokenType::USDC, 100, 1), 2);
    let (a0, _) = s.mp.apply_to_job(s.freelancer, 1, "x".to_string(), 5).unwrap();
    let (a1, ev) = s.mp.apply_to_job(Address(4), 1, "y".to_string(), 6).unwrap();
    assert_eq!((a0, a1), (0, 1));
    assert_eq!(ev, MarketEvent::Applied { applicant: Address(4), app_id: 1, job_id: 1, bid_amount: 6 });
    assert_eq!(s.mp.get_application(1).unwrap().status, ApplicationStatus::Pending);
    assert_eq!(s.mp.get_application(2).err(), Some(MarketError::AppNotFound));
}

#[test]
fn market_hire_refusals() {
    let mut s = setup();
    s.mp.initialize(s.admin, 0).unwrap();
    s.ledger.mint(s.token, s.client, 1_000);
    let j0 = post(&mut s, TokenType::USDC, 100, 1);
    let j1 = post(&mut s, TokenType::USDC, 100, 1);
    let (a0, _) = s.mp.apply_to_job(s.freelancer, j0, "p".to_string(), 100).unwrap();
    assert_eq!(s.mp.hire_freelancer(s.client, 7, a0), Err(MarketError::JobNotFound));
    assert_eq!(s.mp.hire_freelancer(Address(8), j0, a0), Err(MarketError::NotClient));
    assert_eq!(s.mp.hire_freelancer(s.client, j0, 5), Err(MarketError::AppNotFound));
    assert_eq!(s.mp.hire_freelancer(s.client, j1, a0), Err(MarketError::AppJobMismatch));
    let ev = s.mp.hire_freelancer(s.client, j0, a0).unwrap();
    assert_eq!(ev, MarketEvent::FreelancerHired { client: s.client, job_id: j0, freelancer: s.freelancer });
    assert_eq!(s.mp.get_application(a0).unwrap().status, ApplicationStatus::Accepted);
    assert_eq!(s.mp.get_job(j0).unwrap().freelancer, Some(s.freelancer));
    assert_eq!(s.mp.hire_freelancer(s.client, j0, a0), Err(MarketError::JobNotOpen));
    assert_eq!(
        s.mp.apply_to_job(Address(5), j0, "late".to_string(), 1).err(),
        Some(MarketError::JobNotOpen)
    );
    assert_eq!(
        s.mp.apply_to_job(Address(5), 9, "none".to_string(), 1).err(),
        Some(MarketError::JobNotFound)
    );
}

#[test]
fn market_lifecycle_refusals() {
    let mut s = setup();
    s.mp.initialize(s.admin, 0).unwrap();
    s.ledger.mint(s.token, s.client, 1_000);
    let j = post(&mut s, TokenType::USDC, 100, 1);
    // open job: no freelancer yet
    assert_eq!(s.mp.flag_dispute(s.client, j), Err(MarketError::NoFreelancer));
    assert_eq!(s.mp.complete_job(s.client, j).err(), Some(MarketError::NotInProgress));
    assert_eq!(s.mp.cancel_job(Address(8), j).err(), Some(MarketError::NotClient));
    let (a, _) = s.mp.apply_to_job(s.freelancer, j, "p".to_string(), 100).unwrap();
    s.mp.hire_freelancer(s.client, j, a).unwrap();
    assert_eq!(s.mp.cancel_job(s.client, j).err(), Some(MarketError::CanOnlyCancelOpen));
    assert_eq!(s.mp.flag_dispute(Address(8), j), Err(MarketError::NotAParty));
    assert_eq!(s.mp.resolve_dispute(s.admin, j, 50, 50).err(), Some(MarketError::NotDisputed));
    assert_eq!(s.mp.flag_dispute(s.freelancer, j), Ok(MarketEvent::DisputeFlagged { caller: s.freelancer, job_id: j }));
    assert_eq!(s.mp.flag_dispute(s.client, j), Err(MarketError::NotInProgress));
    assert_eq!(s.mp.resolve_dispute(Address(8), j, 50, 50).err(), Some(MarketError::NotAdmin));
    assert_eq!(s.mp.resolve_dispute(s.admin, j, 50, 49).err(), Some(MarketError::AwardsMismatch));
    assert_eq!(s.mp.resolve_dispute(s.admin, j, i128::MAX, 1).err(), Some(MarketError::Overflow));
    assert_eq!(s.mp.get_job(j).unwrap().status, JobStatus::Disputed);
    // the whole escrow to the freelancer: no transfer to the client
    let (ts, _) = s.mp.resolve_dispute(s.admin, j, 0, 100).unwrap();
    assert_eq!(ts, vec![Transfer::Payout { token: s.token, to: s.freelancer, amount: 100 }]);
    assert_eq!(s.mp.complete_job(s.client, j).err(), Some(MarketError::NotInProgress));
}

#[test]
fn market_escrow_holds_what_active_jobs_lock() {
    let mut s = setup();
    s.mp.initialize(s.admin, 500).unwrap();
    s.ledger.mint(s.token, s.client, 100_000);
    let j0 = post(&mut s, TokenType::USDC, 1_000, 1);
    let j1 = post(&mut s, TokenType::USDC, 2_000, 1);
    let j2 = post(&mut s, TokenType::USDC, 3_000, 1);
    assert_eq!(s.ledger.balance(s.token, ESCROW), 1_050 + 2_100 + 3_150);
    let (ts, ev) = s.mp.cancel_job(s.client, j1).unwrap();
    assert_eq!(ev, MarketEvent::JobCancelled { client: s.client, job_id: j1, refund: 2_100 });
    s.ledger.apply(&ts);
    assert_eq!(s.ledger.balance(s.token, ESCROW), 1_050 + 3_150);
    let (a, _) = s.mp.apply_to_job(s.freelancer, j2, "p".to_string(), 1).unwrap();
    s.mp.hire_freelancer(s.client, j2, a).unwrap();
    let (ts, ev) = s.mp.complete_job(s.client, j2).unwrap();
    assert_eq!(ev, MarketEvent::JobCompleted { client: s.client, job_id: j2, freelancer: s.freelancer, budget: 3_000 });
    s.ledger.apply(&ts);
    assert_eq!(s.ledger.balance(s.token, ESCROW), 1_050);
    assert_eq!(s.ledger.balance(s.token, s.admin), 150);
    assert_eq!(s.mp.get_job(j0).unwrap().status, JobStatus::Open);
}

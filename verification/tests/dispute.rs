use std::collections::HashMap;

use gig_marketplace::common::{Address, Transfer};
use gig_marketplace::dispute::{
    DisputeContract, DisputeError, DisputeEvent, DisputeStatus, DisputeType,
};

const ESCROW: Address = Address(u64::MAX);

/// Token balances, moved by the transfers that the contract asks for.
struct Ledger {
    balances: HashMap<(Address, Address), i128>,
}

impl Ledger {
    fn new() -> Self {
        Ledger { balances: HashMap::new() }
    }

    fn mint(&mut self, token: Address, to: Address, amount: i128) {
        *self.balances.entry((token, to)).or_insert(0) += amount;
    }

    fn balance(&self, token: Address, who: Address) -> i128 {
        *self.balances.get(&(token, who)).unwrap_or(&0)
    }

    fn apply(&mut self, transfers: &[Transfer]) {
        for t in transfers {
            match *t {
                Transfer::Deposit { token, from, amount } => {
                    assert!(self.balance(token, from) >= amount, "insufficient balance");
                    self.mint(token, from, -amount);
                    self.mint(token, ESCROW, amount);
                }
                Transfer::Payout { token, to, amount } => {
                    self.mint(token, ESCROW, -amount);
                    self.mint(token, to, amount);
                }
            }
        }
    }
}

struct Setup {
    dc: DisputeContract,
    ledger: Ledger,
    admin: Address,
    claimant: Address,
    respondent: Address,
    token: Address,
}

fn setup() -> Setup {
    Setup {
        dc: DisputeContract::new(),
        ledger: Ledger::new(),
        admin: Address(1),
        claimant: Address(2),
        respondent: Address(3),
        token: Address(100),
    }
}

fn open(s: &mut Setup, amount: i128, kind: DisputeType, reference_id: u64, reason: &str, evidence: &str) -> u64 {
    let (id, ts, _) = s
        .dc
        .open_dispute(
            s.claimant,
            s.respondent,
            s.token,
            amount,
            kind,
            reference_id,
            reason.to_string(),
            evidence.to_string(),
        )
        .unwrap();
    s.ledger.apply(&ts);
    id
}

#[test]
fn test_open_assign_resolve() {
    let mut s = setup();
    s.dc.initialize(s.admin).unwrap();
    let arbiter = Address(4);
    s.dc.register_arbiter(s.admin, arbiter).unwrap();

    s.ledger.mint(s.token, s.claimant, 10_000);

    let disp_id = open(&mut s, 10_000i128, DisputeType::JobDispute, 0u64, "Work not done", "Screenshot");

    s.dc.assign_review(arbiter, disp_id).unwrap();
    let (ts, _) = s.dc.resolve(arbiter, disp_id, 7_000i128, 3_000i128, 0).unwrap();
    s.ledger.apply(&ts);

    assert_eq!(s.ledger.balance(s.token, s.claimant), 7_000);
    assert_eq!(s.ledger.balance(s.token, s.respondent), 3_000);
    assert_eq!(s.dc.get_dispute(disp_id).unwrap().status, DisputeStatus::Resolved);
}

#[test]
fn test_dismiss_refunds_claimant() {
    let mut s = setup();
    s.dc.initialize(s.admin).unwrap();
    s.ledger.mint(s.token, s.claimant, 5_000);
    let disp_id = open(&mut s, 5_000i128, DisputeType::OrderDispute, 1u64, "reason", "evidence");
    let (ts, _) = s.dc.dismiss(s.admin, disp_id).unwrap();
    s.ledger.apply(&ts);
    assert_eq!(s.ledger.balance(s.token, s.claimant), 5_000);
    assert_eq!(s.dc.get_dispute(disp_id).unwrap().status, DisputeStatus::Dismissed);
}

#[test]
fn test_unregistered_arbiter_cannot_assign() {
    let mut s = setup();
    s.dc.initialize(s.admin).unwrap();
    s.ledger.mint(s.token, s.claimant, 1_000);
    let disp_id = open(&mut s, 1_000i128, DisputeType::JobDispute, 0u64, "r", "e");
    let fake = Address(99);
    assert_eq!(s.dc.assign_review(fake, disp_id), Err(DisputeError::NotRegisteredArbiter));
    assert_eq!(s.dc.get_dispute(disp_id).unwrap().status, DisputeStatus::Open);
}

#[test]
fn dispute_resolution_records_awards_and_ledger() {
    let mut s = setup();
    s.dc.initialize(s.admin).unwrap();
    let arbiter = Address(4);
    s.dc.register_arbiter(s.admin, arbiter).unwrap();
    s.ledger.mint(s.token, s.claimant, 10_000);
    let id = open(&mut s, 10_000, DisputeType::JobDispute, 7, "r", "e");
    assert_eq!(s.dc.assign_review(arbiter, id), Ok(DisputeEvent::ReviewAssigned { arbiter, dispute_id: id }));
    let (ts, ev) = s.dc.resolve(arbiter, id, 10_000, 0, 1_234).unwrap();
    assert_eq!(ts, vec![Transfer::Payout { token: s.token, to: s.claimant, amount: 10_000 }]);
    assert_eq!(
        ev,
        DisputeEvent::DisputeResolved { arbiter, dispute_id: id, claimant_award: 10_000, respondent_award: 0 }
    );
    s.ledger.apply(&ts);
    let d = s.dc.get_dispute(id).unwrap();
    assert_eq!(d.arbiter, Some(arbiter));
    assert_eq!((d.claimant_award, d.respondent_award, d.resolved_ledger), (10_000, 0, 1_234));
    assert_eq!(s.ledger.balance(s.token, ESCROW), 0);
}

#[test]
fn dispute_refusals() {
    let mut s = setup();
    assert_eq!(s.dc.register_arbiter(s.admin, Address(4)).err(), Some(DisputeError::NotInitialized));
    assert_eq!(s.dc.dismiss(s.admin, 0).err(), Some(DisputeError::NotInitialized));
    s.dc.initialize(s.admin).unwrap();
    assert_eq!(s.dc.initialize(s.admin), Err(DisputeError::AlreadyInitialized));
    let arbiter = Address(4);
    assert_eq!(s.dc.register_arbiter(Address(9), arbiter).err(), Some(DisputeError::NotAdmin));
    assert_eq!(
        s.dc.register_arbiter(s.admin, arbiter),
        Ok(DisputeEvent::ArbiterRegistered { admin: s.admin, arbiter })
    );
    s.dc.register_arbiter(s.admin, arbiter).unwrap();
    s.ledger.mint(s.token, s.claimant, 1_000);
    let id = open(&mut s, 1_000, DisputeType::JobDispute, 0, "r", "e");
    assert_eq!(s.dc.assign_review(arbiter, 5).err(), Some(DisputeError::DisputeNotFound));
    assert_eq!(s.dc.resolve(arbiter, id, 500, 500, 0).err(), Some(DisputeError::NotAssignedArbiter));
    s.dc.assign_review(arbiter, id).unwrap();
    assert_eq!(s.dc.assign_review(arbiter, id).err(), Some(DisputeError::DisputeNotOpen));
    assert_eq!(s.dc.resolve(Address(5), id, 500, 500, 0).err(), Some(DisputeError::NotAssignedArbiter));
    assert_eq!(s.dc.resolve(arbiter, id, 500, 499, 0).err(), Some(DisputeError::AwardsMismatch));
    assert_eq!(s.dc.resolve(arbiter, id, i128::MAX, 1, 0).err(), Some(DisputeError::Overflow));
    assert_eq!(s.dc.dismiss(Address(9), id).err(), Some(DisputeError::NotAdmin));
    let (ts, ev) = s.dc.dismiss(s.admin, id).unwrap();
    assert_eq!(ev, DisputeEvent::DisputeDismissed { admin: s.admin, dispute_id: id });
    s.ledger.apply(&ts);
    assert_eq!(s.dc.resolve(arbiter, id, 500, 500, 0).err(), Some(DisputeError::NotUnderReview));
    assert_eq!(s.dc.dismiss(s.admin, id).err(), Some(DisputeError::CannotDismiss));
    assert_eq!(s.dc.get_dispute(id).unwrap().status, DisputeStatus::Dismissed);
    assert_eq!(s.ledger.balance(s.token, s.claimant), 1_000);
}

#[test]
fn dispute_ids_are_sequential_and_escrow_adds_up() {
    let mut s = setup();
    s.dc.initialize(s.admin).unwrap();
    s.ledger.mint(s.token, s.claimant, 10_000);
    let a = open(&mut s, 1_000, DisputeType::JobDispute, 0, "r", "e");
    let b = open(&mut s, 2_000, DisputeType::OrderDispute, 1, "r", "e");
    assert_eq!((a, b), (0, 1));
    assert_eq!(s.ledger.balance(s.token, ESCROW), 3_000);
    let (ts, _) = s.dc.dismiss(s.admin, a).unwrap();
    s.ledger.apply(&ts);
    assert_eq!(s.ledger.balance(s.token, ESCROW), 2_000);
}

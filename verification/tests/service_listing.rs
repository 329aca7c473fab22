use std::collections::HashMap;

use gig_marketplace::common::{Address, Transfer};
use gig_marketplace::service_listing::{
    ListingError, ListingEvent, OrderStatus, ServiceListingContract, ServiceStatus,
};

const ESCROW: Address = Address(u64::MAX);

/// Token balances, moved by the transfers that the contract asks for.
struct Ledger {
    balances: HashMap<(Address, Address), i128>,
}

impl Ledger {
    fn new() -> Self {
        Ledger { balances: HashMap::new() }
    }

    fn mint(&mut self, token: Address, to: Address, amount: i128) {
        *self.balances.entry((token, to)).or_insert(0) += amount;
    }

    fn balance(&self, token: Address, who: Address) -> i128 {
        *self.balances.get(&(token, who)).unwrap_or(&0)
    }

    fn apply(&mut self, transfers: &[Transfer]) {
        for t in transfers {
            match *t {
                Transfer::Deposit { token, from, amount } => {
                    assert!(self.balance(token, from) >= amount, "insufficient balance");
                    self.mint(token, from, -amount);
                    self.mint(token, ESCROW, amount);
                }
                Transfer::Payout { token, to, amount } => {
                    self.mint(token, ESCROW, -amount);
                    self.mint(token, to, amount);
                }
            }
        }
    }
}

struct Setup {
    sl: ServiceListingContract,
    ledger: Ledger,
    admin: Address,
    freelancer: Address,
    client: Address,
    token: Address,
}

fn setup() -> Setup {
    Setup {
        sl: ServiceListingContract::new(),
        ledger: Ledger::new(),
        admin: Address(1),
        freelancer: Address(2),
        client: Address(3),
        token: Address(100),
    }
}

fn create(s: &mut Setup, price: i128, delivery: u32) -> u64 {
    let (id, _) = s
        .sl
        .create_service(s.freelancer, s.token, price, "t".to_string(), "d".to_string(), "c".to_string(), delivery)
        .unwrap();
    id
}

fn purchase(s: &mut Setup, svc_id: u64, ledger_sequence: u32) -> u64 {
    let (id, ts, _) = s.sl.purchase_service(s.client, svc_id, "req".to_string(), ledger_sequence).unwrap();
    s.ledger.apply(&ts);
    id
}

#[test]
fn test_create_purchase_deliver_accept() {
    let mut s = setup();
    s.sl.initialize(s.admin, 250u32).unwrap();
    s.ledger.mint(s.token, s.client, 10_250);

    let (svc_id, _) = s
        .sl
        .create_service(
            s.freelancer,
            s.token,
            10_000i128,
            "Logo Design".to_string(),
            "Professional logo".to_string(),
            "Design".to_string(),
            100u32,
        )
        .unwrap();

    let (ord_id, ts, _) = s.sl.purchase_service(s.client, svc_id, "Make it blue".to_string(), 0).unwrap();
    s.ledger.apply(&ts);

    s.sl.deliver_order(s.freelancer, ord_id).unwrap();
    let (ts, _) = s.sl.accept_delivery(s.client, ord_id).unwrap();
    s.ledger.apply(&ts);

    assert_eq!(s.ledger.balance(s.token, s.freelancer), 10_000);
    assert_eq!(s.ledger.balance(s.token, s.admin), 250);
    assert_eq!(s.sl.get_service(svc_id).unwrap().orders_completed, 1);
}

#[test]
fn test_cancel_order_refunds() {
    let mut s = setup();
    s.sl.initialize(s.admin, 0u32).unwrap();
    s.ledger.mint(s.token, s.client, 5_000);
    let svc_id = create(&mut s, 5_000i128, 50u32);
    let (ord_id, ts, _) = s.sl.purchase_service(s.client, svc_id, "req".to_string(), 0).unwrap();
    s.ledger.apply(&ts);
    let (ts, _) = s.sl.cancel_order(s.client, ord_id).unwrap();
    s.ledger.apply(&ts);
    assert_eq!(s.ledger.balance(s.token, s.client), 5_000);
}

#[test]
fn test_toggle_and_update_price() {
    let mut s = setup();
    s.sl.initialize(s.admin, 0u32).unwrap();
    let svc_id = create(&mut s, 1_000i128, 50u32);
    s.sl.toggle_service(s.freelancer, svc_id).unwrap();
    assert_eq!(s.sl.get_service(svc_id).unwrap().status, ServiceStatus::Paused);
    s.sl.update_price(s.freelancer, svc_id, 2_000i128).unwrap();
    assert_eq!(s.sl.get_service(svc_id).unwrap().price, 2_000);
}

#[test]
fn listing_order_terms_and_deadline() {
    let mut s = setup();
    s.sl.initialize(s.admin, 250).unwrap();
    s.ledger.mint(s.token, s.client, 100_000);
    let svc = create(&mut s, 999, 40);
    let (id, ts, ev) = s.sl.purchase_service(s.client, svc, "r".to_string(), 1_000).unwrap();
    assert_eq!(id, 0);
    assert_eq!(ts, vec![Transfer::Deposit { token: s.token, from: s.client, amount: 999 + 24 }]);
    assert_eq!(ev, ListingEvent::OrderPlaced { client: s.client, order_id: 0, service_id: svc, price: 999 });
    let order = s.sl.get_order(id).unwrap();
    assert_eq!(order.fee, 24);
    assert_eq!(order.deadline_ledger, 1_040);
    assert_eq!(order.status, OrderStatus::InProgress);
    assert_eq!(order.freelancer, s.freelancer);
    // a price change leaves placed orders as they were
    s.sl.update_price(s.freelancer, svc, 5).unwrap();
    assert_eq!(s.sl.get_order(id).unwrap().amount, 999);
    assert_eq!(s.sl.get_service(svc).unwrap().price, 5);
}

#[test]
fn listing_orders_completed_counts_each_accepted_order() {
    let mut s = setup();
    s.sl.initialize(s.admin, 0).unwrap();
    s.ledger.mint(s.token, s.client, 100_000);
    let svc = create(&mut s, 100, 10);
    let other = create(&mut s, 100, 10);
    let o0 = purchase(&mut s, svc, 1);
    let o1 = purchase(&mut s, svc, 1);
    let o2 = purchase(&mut s, other, 1);
    let o3 = purchase(&mut s, svc, 1);
    for o in [o0, o1, o2] {
        s.sl.deliver_order(s.freelancer, o).unwrap();
        let (ts, _) = s.sl.accept_delivery(s.client, o).unwrap();
        s.ledger.apply(&ts);
    }
    let (ts, _) = s.sl.cancel_order(s.freelancer, o3).unwrap();
    s.ledger.apply(&ts);
    assert_eq!(s.sl.get_service(svc).unwrap().orders_completed, 2);
    assert_eq!(s.sl.get_service(other).unwrap().orders_completed, 1);
    assert_eq!(s.ledger.balance(s.token, ESCROW), 0);
    assert_eq!(s.ledger.balance(s.token, s.freelancer), 300);
}

#[test]
fn listing_zero_fee_pays_no_admin() {
    let mut s = setup();
    s.sl.initialize(s.admin, 0).unwrap();
    s.ledger.mint(s.token, s.client, 1_000);
    let svc = create(&mut s, 700, 10);
    let o = purchase(&mut s, svc, 1);
    s.sl.deliver_order(s.freelancer, o).unwrap();
    let (ts, ev) = s.sl.accept_delivery(s.client, o).unwrap();
    assert_eq!(ts, vec![Transfer::Payout { token: s.token, to: s.freelancer, amount: 700 }]);
    assert_eq!(ev, ListingEvent::OrderCompleted { client: s.client, order_id: o, freelancer: s.freelancer, amount: 700 });
    assert_eq!(s.sl.get_order(o).unwrap().status, OrderStatus::Completed);
}

#[test]
fn listing_refusals() {
    let mut s = setup();
    assert_eq!(
        s.sl.create_service(s.freelancer, s.token, 1, "t".to_string(), "d".to_string(), "c".to_string(), 1).err(),
        Some(ListingError::NotInitialized)
    );
    s.sl.initialize(s.admin, 0).unwrap();
    assert_eq!(s.sl.initialize(s.admin, 0), Err(ListingError::AlreadyInitialized));
    s.ledger.mint(s.token, s.client, 1_000);
    let svc = create(&mut s, 100, u32::MAX);
    assert_eq!(s.sl.purchase_service(s.client, 9, "r".to_string(), 0).err(), Some(ListingError::ServiceNotFound));
    assert_eq!(s.sl.purchase_service(s.client, svc, "r".to_string(), 1).err(), Some(ListingError::Overflow));
    let o = purchase(&mut s, svc, 0);
    assert_eq!(s.sl.deliver_order(s.freelancer, 5).err(), Some(ListingError::OrderNotFound));
    assert_eq!(s.sl.deliver_order(s.client, o).err(), Some(ListingError::NotFreelancer));
    assert_eq!(s.sl.accept_delivery(s.client, o).err(), Some(ListingError::NotDelivered));
    assert_eq!(s.sl.cancel_order(Address(9), o).err(), Some(ListingError::NotAParty));
    s.sl.deliver_order(s.freelancer, o).unwrap();
    assert_eq!(s.sl.deliver_order(s.freelancer, o).err(), Some(ListingError::NotInProgress));
    assert_eq!(s.sl.cancel_order(s.client, o).err(), Some(ListingError::CannotCancel));
    assert_eq!(s.sl.accept_delivery(s.freelancer, o).err(), Some(ListingError::NotClient));
    assert_eq!(s.sl.toggle_service(s.client, svc).err(), Some(ListingError::NotOwner));
    assert_eq!(s.sl.update_price(s.client, svc, 1).err(), Some(ListingError::NotOwner));
    assert_eq!(s.sl.toggle_service(s.freelancer, 7).err(), Some(ListingError::ServiceNotFound));
    s.sl.toggle_service(s.freelancer, svc).unwrap();
    assert_eq!(
        s.sl.purchase_service(s.client, svc, "r".to_string(), 0).err(),
        Some(ListingError::ServiceNotActive)
    );
    assert_eq!(s.sl.toggle_service(s.freelancer, svc), Ok(ListingEvent::ServiceToggled { freelancer: s.freelancer, service_id: svc }));
    assert_eq!(s.sl.get_service(svc).unwrap().status, ServiceStatus::Active);
    assert_eq!(s.sl.get_order(3).err(), Some(ListingError::OrderNotFound));
}

#[test]
fn listing_deleted_service_cannot_be_toggled() {
    let owner = Address(2);
    let svc = gig_marketplace::service_listing::ServiceListing {
        freelancer: owner,
        token: Address(100),
        price: 10,
        title: "t".to_string(),
        description: "d".to_string(),
        category: "c".to_string(),
        delivery_ledgers: 5,
        orders_completed: 0,
        status: ServiceStatus::Deleted,
    };
    let mut sl = ServiceListingContract::from_parts(Some(Address(1)), 0, vec![svc], Vec::new());
    assert_eq!(sl.toggle_service(owner, 0), Err(ListingError::ServiceDeleted));
    assert_eq!(sl.get_service(0).unwrap().status, ServiceStatus::Deleted);
    let (admin, fee_bps, services, orders) = sl.into_parts();
    assert_eq!((admin, fee_bps, services.len(), orders.len()), (Some(Address(1)), 0, 1, 0));
}

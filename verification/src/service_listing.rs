//! The service catalogue: a freelancer lists a service at a fixed price;
//! a client buys it and its price plus the platform fee go into escrow;
//! the freelancer delivers; the client accepts (price to the freelancer,
//! fee to the admin) or either party cancels before delivery (everything
//! back to the client).
use vstd::prelude::*;
use crate::common::{
    Address, Transfer, net_inflow, sum_of, fee_for, fee_computable, fits_i128, compute_fee,
    paid_to, payouts_in, positive_part, share_of, lemma_sum_push, lemma_sum_update, lemma_sum_zero,
    lemma_sum_of_bits, lemma_net_inflow_one, lemma_net_inflow_two, lemma_paid_to_one,
    lemma_paid_to_two,
};

verus! {

#[derive(Clone, Copy, Debug, PartialEq, Eq, Structural)]
pub enum ServiceStatus {
    Active,
    Paused,
    Deleted,
}

#[derive(Clone, Copy, Debug, PartialEq, Eq, Structural)]
pub enum OrderStatus {
    Pending,
    InProgress,
    Delivered,
    Completed,
    Cancelled,
    Disputed,
}

#[derive(Debug)]
pub struct ServiceListing {
    pub freelancer: Address,
    pub token: Address,
    pub price: i128,
    pub title: String,
    pub description: String,
    pub category: String,
    pub delivery_ledgers: u32,
    pub orders_completed: u64,
    pub status: ServiceStatus,
}

#[derive(Debug)]
pub struct Order {
    pub service_id: u64,
    pub client: Address,
    pub freelancer: Address,
    pub token: Address,
    pub amount: i128,
    pub fee: i128,
    pub requirements: String,
    pub deadline_ledger: u32,
    pub status: OrderStatus,
}

/// Why a call is refused. A refused call changes nothing.
#[derive(Clone, Copy, Debug, PartialEq, Eq, Structural)]
pub enum ListingError {
    AlreadyInitialized,
    NotInitialized,
    ServiceNotFound,
    ServiceNotActive,
    OrderNotFound,
    NotFreelancer,
    NotInProgress,
    NotClient,
    NotDelivered,
    NotAParty,
    CannotCancel,
    NotOwner,
    ServiceDeleted,
    /// An amount, a ledger number or a counter does not fit its machine
    /// integer.
    Overflow,
}

/// What a successful call announces.
#[derive(Clone, Copy, Debug, PartialEq, Eq, Structural)]
pub enum ListingEvent {
    ServiceCreated { freelancer: Address, service_id: u64, token: Address, price: i128 },
    OrderPlaced { client: Address, order_id: u64, service_id: u64, price: i128 },
    OrderDelivered { freelancer: Address, order_id: u64 },
    OrderCompleted { client: Address, order_id: u64, freelancer: Address, amount: i128 },
    OrderCancelled { caller: Address, order_id: u64, refund: i128 },
    ServiceToggled { freelancer: Address, service_id: u64 },
    PriceUpdated { freelancer: Address, service_id: u64, new_price: i128 },
}

/// The contract's storage, as mathematical values. The service with id `i`
/// is `services[i]`, the order with id `i` is `orders[i]`. The contract is
/// initialized when it has an admin.
pub struct ListingState {
    pub admin: Option<Address>,
    pub fee_bps: u32,
    pub services: Seq<ServiceListing>,
    pub orders: Seq<Order>,
}

/// Whether an order's money is still held in escrow.
pub open spec fn order_is_funded(s: OrderStatus) -> bool {
    !(s is Completed || s is Cancelled)
}

/// What an order holds of `token` in escrow.
pub open spec fn order_escrow(o: Order, token: Address) -> int {
    if o.token == token && order_is_funded(o.status) {
        o.amount + o.fee
    } else {
        0
    }
}

/// What all orders together hold of `token` in escrow.
pub open spec fn escrow_of(orders: Seq<Order>, token: Address) -> int {
    sum_of(orders.map_values(|o: Order| order_escrow(o, token)))
}

/// Whether `o` is a completed order of service `service_id`, as 1 or 0.
pub open spec fn completed_for(o: Order, service_id: int) -> int {
    if o.service_id == service_id && o.status is Completed {
        1
    } else {
        0
    }
}

/// How many orders of service `service_id` are completed.
pub open spec fn completed_count(orders: Seq<Order>, service_id: int) -> int {
    sum_of(orders.map_values(|o: Order| completed_for(o, service_id)))
}

/// The moves an order's status may make, over any number of calls.
pub open spec fn order_status_advances(a: OrderStatus, b: OrderStatus) -> bool {
    match a {
        OrderStatus::Pending => true,
        OrderStatus::InProgress => b is InProgress || b is Delivered || b is Completed
            || b is Cancelled,
        OrderStatus::Delivered => b is Delivered || b is Completed,
        OrderStatus::Completed => b is Completed,
        OrderStatus::Cancelled => b is Cancelled,
        OrderStatus::Disputed => b is Disputed,
    }
}

/// How a stored order may change: its terms stay fixed, its status only
/// moves forward, and a finished order stays as it is.
pub open spec fn order_advances(a: Order, b: Order) -> bool {
    &&& b.service_id == a.service_id
    &&& b.client == a.client
    &&& b.freelancer == a.freelancer
    &&& b.token == a.token
    &&& b.amount == a.amount
    &&& b.fee == a.fee
    &&& b.requirements == a.requirements
    &&& b.deadline_ledger == a.deadline_ledger
    &&& order_status_advances(a.status, b.status)
    &&& (a.status is Completed || a.status is Cancelled ==> b == a)
}

/// How a stored service may change: its owner, token and description stay
/// fixed, its completed-orders count never falls, and a deleted service
/// stays deleted.
pub open spec fn service_advances(a: ServiceListing, b: ServiceListing) -> bool {
    &&& b.freelancer == a.freelancer
    &&& b.token == a.token
    &&& b.title == a.title
    &&& b.description == a.description
    &&& b.category == a.category
    &&& b.delivery_ledgers == a.delivery_ledgers
    &&& a.orders_completed <= b.orders_completed
    &&& (a.status is Deleted ==> b.status is Deleted)
}

impl ListingState {
    /// What the escrow holds of `token` for this state's orders.
    pub open spec fn escrow(self, token: Address) -> int {
        escrow_of(self.orders, token)
    }

    /// The escrow moves from `old` to `self` by exactly the transfers `ts`.
    pub open spec fn escrow_moved_by(self, old: ListingState, ts: Seq<Transfer>) -> bool {
        forall|t: Address| #[trigger] self.escrow(t) == old.escrow(t) + net_inflow(ts, t)
    }

    pub open spec fn order_wf(self, o: Order) -> bool {
        &&& o.service_id < self.services.len()
        &&& o.freelancer == self.services[o.service_id as int].freelancer
        &&& o.token == self.services[o.service_id as int].token
        &&& o.fee == fee_for(o.amount as int, self.fee_bps as int)
        &&& fits_i128(o.amount + o.fee)
    }

    /// What every reachable state satisfies: nothing is stored before
    /// initialization; every order belongs to a stored service, is owed to
    /// that service's freelancer in that service's token, and carries the
    /// platform fee on its amount; and every service's completed-orders
    /// count is the number of its orders that are completed.
    pub open spec fn wf(self) -> bool {
        &&& (self.admin is None ==> self.services.len() == 0 && self.orders.len() == 0)
        &&& forall|i: int| 0 <= i < self.orders.len() ==> #[trigger] self.order_wf(self.orders[i])
        &&& forall|s: int|
            0 <= s < self.services.len() ==> (#[trigger] self.services[s]).orders_completed
                == completed_count(self.orders, s)
    }

    /// `self` can follow `old` after any number of calls.
    pub open spec fn evolves_from(self, old: ListingState) -> bool {
        &&& (old.admin is Some ==> self.admin == old.admin && self.fee_bps == old.fee_bps)
        &&& old.services.len() <= self.services.len()
        &&& forall|i: int|
            0 <= i < old.services.len() ==> #[trigger] service_advances(
                old.services[i],
                self.services[i],
            )
        &&& old.orders.len() <= self.orders.len()
        &&& forall|i: int|
            0 <= i < old.orders.len() ==> #[trigger] order_advances(old.orders[i], self.orders[i])
    }

    pub open spec fn initialize_error(self) -> Option<ListingError> {
        if self.admin is Some {
            Some(ListingError::AlreadyInitialized)
        } else {
            None
        }
    }

    pub open spec fn create_service_error(self) -> Option<ListingError> {
        if self.admin is None {
            Some(ListingError::NotInitialized)
        } else if self.services.len() >= u64::MAX {
            Some(ListingError::Overflow)
        } else {
            None
        }
    }

    pub open spec fn purchase_service_error(self, service_id: u64, ledger_sequence: u32) -> Option<
        ListingError,
    > {
        if service_id >= self.services.len() {
            Some(ListingError::ServiceNotFound)
        } else {
            let svc = self.services[service_id as int];
            if !(svc.status is Active) {
                Some(ListingError::ServiceNotActive)
            } else if self.admin is None {
                Some(ListingError::NotInitialized)
            } else if !fee_computable(svc.price, self.fee_bps) {
                Some(ListingError::Overflow)
            } else if !fits_i128(svc.price + fee_for(svc.price as int, self.fee_bps as int)) {
                Some(ListingError::Overflow)
            } else if ledger_sequence + svc.delivery_ledgers > u32::MAX {
                Some(ListingError::Overflow)
            } else if self.orders.len() >= u64::MAX {
                Some(ListingError::Overflow)
            } else {
                None
            }
        }
    }

    /// The order that `purchase_service` stores.
    pub open spec fn placed_order(
        self,
        client: Address,
        service_id: u64,
        requirements: String,
        ledger_sequence: u32,
    ) -> Order {
        let svc = self.services[service_id as int];
        Order {
            service_id,
            client,
            freelancer: svc.freelancer,
            token: svc.token,
            amount: svc.price,
            fee: fee_for(svc.price as int, self.fee_bps as int) as i128,
            requirements,
            deadline_ledger: (ledger_sequence + svc.delivery_ledgers) as u32,
            status: OrderStatus::InProgress,
        }
    }

    pub open spec fn deliver_order_error(self, freelancer: Address, order_id: u64) -> Option<
        ListingError,
    > {
        if order_id >= self.orders.len() {
            Some(ListingError::OrderNotFound)
        } else if self.orders[order_id as int].freelancer != freelancer {
            Some(ListingError::NotFreelancer)
        } else if !(self.orders[order_id as int].status is InProgress) {
            Some(ListingError::NotInProgress)
        } else {
            None
        }
    }

    pub open spec fn accept_delivery_error(self, client: Address, order_id: u64) -> Option<
        ListingError,
    > {
        if order_id >= self.orders.len() {
            Some(ListingError::OrderNotFound)
        } else {
            let order = self.orders[order_id as int];
            if order.client != client {
                Some(ListingError::NotClient)
            } else if !(order.status is Delivered) {
                Some(ListingError::NotDelivered)
            } else if self.admin is None {
                Some(ListingError::NotInitialized)
            } else if order.service_id >= self.services.len() {
                Some(ListingError::ServiceNotFound)
            } else if self.services[order.service_id as int].orders_completed >= u64::MAX {
                Some(ListingError::Overflow)
            } else {
                None
            }
        }
    }

    pub open spec fn cancel_order_error(self, caller: Address, order_id: u64) -> Option<
        ListingError,
    > {
        if order_id >= self.orders.len() {
            Some(ListingError::OrderNotFound)
        } else {
            let order = self.orders[order_id as int];
            if caller != order.client && caller != order.freelancer {
                Some(ListingError::NotAParty)
            } else if !(order.status is InProgress || order.status is Pending) {
                Some(ListingError::CannotCancel)
            } else if !fits_i128(order.amount + order.fee) {
                Some(ListingError::Overflow)
            } else {
                None
            }
        }
    }

    pub open spec fn toggle_service_error(self, freelancer: Address, service_id: u64) -> Option<
        ListingError,
    > {
        if service_id >= self.services.len() {
            Some(ListingError::ServiceNotFound)
        } else if self.services[service_id as int].freelancer != freelancer {
            Some(ListingError::NotOwner)
        } else if self.services[service_id as int].status is Deleted {
            Some(ListingError::ServiceDeleted)
        } else {
            None
        }
    }

    pub open spec fn update_price_error(self, freelancer: Address, service_id: u64) -> Option<
        ListingError,
    > {
        if service_id >= self.services.len() {
            Some(ListingError::ServiceNotFound)
        } else if self.services[service_id as int].freelancer != freelancer {
            Some(ListingError::NotOwner)
        } else {
            None
        }
    }

    /// The order `order_id` with its status set to `status`.
    pub open spec fn order_with_status(self, order_id: u64, status: OrderStatus) -> Order {
        Order { status, ..self.orders[order_id as int] }
    }
}

/// The status a service takes when its owner toggles it.
pub open spec fn toggled(s: ServiceStatus) -> ServiceStatus {
    match s {
        ServiceStatus::Active => ServiceStatus::Paused,
        ServiceStatus::Paused => ServiceStatus::Active,
        ServiceStatus::Deleted => ServiceStatus::Deleted,
    }
}

/// The payouts that settle an accepted order: the amount to the
/// freelancer, and the fee to the admin where it is positive.
pub open spec fn delivery_payouts(o: Order, admin: Address) -> Seq<Transfer> {
    let to_freelancer = seq![Transfer::Payout { token: o.token, to: o.freelancer, amount: o.amount }];
    if o.fee > 0 {
        to_freelancer.push(Transfer::Payout { token: o.token, to: admin, amount: o.fee })
    } else {
        to_freelancer
    }
}

pub struct ServiceListingContract {
    admin: Option<Address>,
    fee_bps: u32,
    services: Vec<ServiceListing>,
    orders: Vec<Order>,
}

impl View for ServiceListingContract {
    type V = ListingState;

    closed spec fn view(&self) -> ListingState {
        ListingState {
            admin: self.admin,
            fee_bps: self.fee_bps,
            services: self.services@,
            orders: self.orders@,
        }
    }
}

proof fn lemma_escrow_push(orders: Seq<Order>, o: Order, t: Address)
    ensures
        escrow_of(orders.push(o), t) == escrow_of(orders, t) + order_escrow(o, t),
{
    let f = |x: Order| order_escrow(x, t);
    assert(orders.push(o).map_values(f) =~= orders.map_values(f).push(f(o)));
    lemma_sum_push(orders.map_values(f), f(o));
}

proof fn lemma_escrow_update(orders: Seq<Order>, i: int, o: Order, t: Address)
    requires
        0 <= i < orders.len(),
    ensures
        escrow_of(orders.update(i, o), t) == escrow_of(orders, t) - order_escrow(orders[i], t)
            + order_escrow(o, t),
{
    let f = |x: Order| order_escrow(x, t);
    assert(orders.update(i, o).map_values(f) =~= orders.map_values(f).update(i, f(o)));
    lemma_sum_update(orders.map_values(f), i, f(o));
}

proof fn lemma_count_push(orders: Seq<Order>, o: Order, s: int)
    ensures
        completed_count(orders.push(o), s) == completed_count(orders, s) + completed_for(o, s),
{
    let f = |x: Order| completed_for(x, s);
    assert(orders.push(o).map_values(f) =~= orders.map_values(f).push(f(o)));
    lemma_sum_push(orders.map_values(f), f(o));
}

proof fn lemma_count_update(orders: Seq<Order>, i: int, o: Order, s: int)
    requires
        0 <= i < orders.len(),
    ensures
        completed_count(orders.update(i, o), s) == completed_count(orders, s) - completed_for(
            orders[i],
            s,
        ) + completed_for(o, s),
{
    let f = |x: Order| completed_for(x, s);
    assert(orders.update(i, o).map_values(f) =~= orders.map_values(f).update(i, f(o)));
    lemma_sum_update(orders.map_values(f), i, f(o));
}

/// No order of a service that none of the orders names is completed.
proof fn lemma_count_unnamed(orders: Seq<Order>, s: int)
    requires
        forall|i: int| 0 <= i < orders.len() ==> orders[i].service_id != s,
    ensures
        completed_count(orders, s) == 0,
{
    let m = orders.map_values(|x: Order| completed_for(x, s));
    assert forall|i: int| 0 <= i < m.len() implies m[i] == 0 by {}
    lemma_sum_zero(m);
}

/// A service's completed-orders count stays below the number of orders
/// while one of its orders is not completed.
proof fn lemma_count_below(orders: Seq<Order>, s: int, k: int)
    requires
        0 <= k < orders.len(),
        !(orders[k].status is Completed),
    ensures
        completed_count(orders, s) <= orders.len() - 1,
{
    let m = orders.map_values(|x: Order| completed_for(x, s));
    assert forall|i: int| 0 <= i < m.len() implies m[i] == 0 || m[i] == 1 by {}
    lemma_sum_of_bits(m, k);
}

proof fn lemma_replace_order(old: ListingState, i: int, no: Order)
    requires
        0 <= i < old.orders.len(),
        order_advances(old.orders[i], no),
    ensures
        ({
            let new = ListingState { orders: old.orders.update(i, no), ..old };
            &&& new.evolves_from(old)
            &&& forall|t: Address| #[trigger]
                new.escrow(t) == old.escrow(t) - order_escrow(old.orders[i], t) + order_escrow(
                    no,
                    t,
                )
        }),
{
    let new = ListingState { orders: old.orders.update(i, no), ..old };
    assert forall|t: Address| #[trigger]
        new.escrow(t) == old.escrow(t) - order_escrow(old.orders[i], t) + order_escrow(no, t) by {
        lemma_escrow_update(old.orders, i, no, t);
    }
    assert forall|k: int| 0 <= k < old.orders.len() implies #[trigger] order_advances(
        old.orders[k],
        new.orders[k],
    ) by {
        if k != i {
            assert(new.orders[k] == old.orders[k]);
        }
    }
    assert forall|k: int| 0 <= k < old.services.len() implies #[trigger] service_advances(
        old.services[k],
        new.services[k],
    ) by {}
}

/// Replacing an order by one with the same terms and the same completion
/// keeps the state well-formed.
proof fn lemma_replace_order_wf(old: ListingState, i: int, no: Order)
    requires
        old.wf(),
        0 <= i < old.orders.len(),
        order_advances(old.orders[i], no),
        (no.status is Completed) == (old.orders[i].status is Completed),
    ensures
        (ListingState { orders: old.orders.update(i, no), ..old }).wf(),
{
    let new = ListingState { orders: old.orders.update(i, no), ..old };
    assert forall|k: int| 0 <= k < new.orders.len() implies #[trigger] new.order_wf(
        new.orders[k],
    ) by {
        assert(old.order_wf(old.orders[k]));
    }
    assert forall|s: int| 0 <= s < new.services.len() implies (#[trigger] new.services[s]).orders_completed
        == completed_count(new.orders, s) by {
        lemma_count_update(old.orders, i, no, s);
    }
}

proof fn lemma_replace_service(old: ListingState, i: int, ns: ServiceListing)
    requires
        0 <= i < old.services.len(),
        service_advances(old.services[i], ns),
        ns.orders_completed == old.services[i].orders_completed,
        ns.freelancer == old.services[i].freelancer,
        ns.token == old.services[i].token,
    ensures
        ({
            let new = ListingState { services: old.services.update(i, ns), ..old };
            &&& new.evolves_from(old)
            &&& new.escrow_moved_by(old, Seq::empty())
            &&& old.wf() ==> new.wf()
        }),
{
    let new = ListingState { services: old.services.update(i, ns), ..old };
    assert forall|t: Address| #[trigger]
        new.escrow(t) == old.escrow(t) + net_inflow(Seq::empty(), t) by {}
    assert forall|k: int| 0 <= k < old.services.len() implies #[trigger] service_advances(
        old.services[k],
        new.services[k],
    ) by {
        if k != i {
            assert(new.services[k] == old.services[k]);
        }
    }
    assert forall|k: int| 0 <= k < old.orders.len() implies #[trigger] order_advances(
        old.orders[k],
        new.orders[k],
    ) by {}
    if old.wf() {
        assert forall|k: int| 0 <= k < new.orders.len() implies #[trigger] new.order_wf(
            new.orders[k],
        ) by {
            assert(old.order_wf(old.orders[k]));
        }
        assert forall|s: int| 0 <= s < new.services.len() implies (#[trigger] new.services[s]).orders_completed
            == completed_count(new.orders, s) by {
            assert(old.services[s].orders_completed == completed_count(old.orders, s));
        }
    }
}

/// Histories compose: a state reached from `b`, itself reached from `a`, is
/// reached from `a`.
pub proof fn lemma_evolves_transitive(a: ListingState, b: ListingState, c: ListingState)
    requires
        b.evolves_from(a),
        c.evolves_from(b),
    ensures
        c.evolves_from(a),
{
    assert forall|i: int| 0 <= i < a.services.len() implies #[trigger] service_advances(
        a.services[i],
        c.services[i],
    ) by {
        assert(service_advances(a.services[i], b.services[i]));
        assert(service_advances(b.services[i], c.services[i]));
    }
    assert forall|i: int| 0 <= i < a.orders.len() implies #[trigger] order_advances(
        a.orders[i],
        c.orders[i],
    ) by {
        assert(order_advances(a.orders[i], b.orders[i]));
        assert(order_advances(b.orders[i], c.orders[i]));
    }
}

/// A completed or cancelled order never changes again.
pub proof fn lemma_finished_order_is_final(a: ListingState, b: ListingState, order_id: int)
    requires
        b.evolves_from(a),
        0 <= order_id < a.orders.len(),
        a.orders[order_id].status is Completed || a.orders[order_id].status is Cancelled,
    ensures
        b.orders[order_id] == a.orders[order_id],
{
    assert(order_advances(a.orders[order_id], b.orders[order_id]));
}

/// Setting an order's status changes its status to the one given and
/// nothing else.
pub proof fn lemma_status_change_only(s: ListingState, order_id: u64, status: OrderStatus)
    requires
        order_id < s.orders.len(),
    ensures
        ({
            let (old_order, new_order) = (s.orders[order_id as int], s.order_with_status(order_id, status));
            &&& new_order.status == status
            &&& new_order.service_id == old_order.service_id
            &&& new_order.client == old_order.client
            &&& new_order.freelancer == old_order.freelancer
            &&& new_order.token == old_order.token
            &&& new_order.amount == old_order.amount
            &&& new_order.fee == old_order.fee
            &&& new_order.requirements == old_order.requirements
            &&& new_order.deadline_ledger == old_order.deadline_ledger
        }),
{
}

/// Who may do what: a call succeeds only when its caller holds the role it
/// needs and the record is in the state it needs. Buying needs an active
/// service; delivering needs the order's freelancer and an order in
/// progress; accepting needs the order's client and a delivered order;
/// cancelling needs the client or the freelancer and an order not yet
/// delivered; toggling and repricing need the service's owner, and a
/// deleted service cannot be toggled. Toggling swaps active and paused.
pub proof fn lemma_who_may_act(s: ListingState, caller: Address, service_id: u64, order_id: u64, seq_no: u32)
    ensures
        s.initialize_error() is None <==> s.admin is None,
        s.create_service_error() is None ==> s.admin is Some,
        s.purchase_service_error(service_id, seq_no) is None ==> service_id < s.services.len()
            && s.services[service_id as int].status is Active && s.admin is Some,
        s.deliver_order_error(caller, order_id) is None ==> order_id < s.orders.len()
            && s.orders[order_id as int].freelancer == caller && s.orders[order_id as int].status is InProgress,
        s.accept_delivery_error(caller, order_id) is None ==> order_id < s.orders.len()
            && s.orders[order_id as int].client == caller && s.orders[order_id as int].status is Delivered,
        s.cancel_order_error(caller, order_id) is None ==> order_id < s.orders.len()
            && (caller == s.orders[order_id as int].client || caller == s.orders[order_id as int].freelancer)
            && (s.orders[order_id as int].status is InProgress || s.orders[order_id as int].status is Pending),
        s.toggle_service_error(caller, service_id) is None ==> service_id < s.services.len()
            && s.services[service_id as int].freelancer == caller
            && !(s.services[service_id as int].status is Deleted),
        s.update_price_error(caller, service_id) is None ==> service_id < s.services.len()
            && s.services[service_id as int].freelancer == caller,
        toggled(ServiceStatus::Active) == ServiceStatus::Paused,
        toggled(ServiceStatus::Paused) == ServiceStatus::Active,
{
}

/// Accepting a delivery pays only out of escrow and only in the order's
/// token: the freelancer receives exactly the order's amount and the admin
/// exactly its fee where positive; nobody else receives anything.
pub proof fn lemma_delivery_pays_freelancer_and_admin(o: Order, admin: Address)
    ensures
        payouts_in(delivery_payouts(o, admin), o.token),
        forall|who: Address| #[trigger]
            paid_to(delivery_payouts(o, admin), who) == share_of(who, o.freelancer, o.amount as int)
                + share_of(who, admin, positive_part(o.fee as int)),
{
    let pf = Transfer::Payout { token: o.token, to: o.freelancer, amount: o.amount };
    let pa = Transfer::Payout { token: o.token, to: admin, amount: o.fee };
    if o.fee > 0 {
        assert(delivery_payouts(o, admin) =~= seq![pf, pa]);
    } else {
        assert(delivery_payouts(o, admin) =~= seq![pf]);
    }
    assert forall|who: Address| #[trigger]
        paid_to(delivery_payouts(o, admin), who) == share_of(who, o.freelancer, o.amount as int)
            + share_of(who, admin, positive_part(o.fee as int)) by {
        lemma_paid_to_one(pf, who);
        lemma_paid_to_two(pf, pa, who);
    }
}

/// The order that `purchase_service` stores carries the call's client,
/// service and requirements; the service's freelancer, token and current
/// price; the platform fee on that price; a deadline `delivery_ledgers`
/// after `ledger_sequence`; and the status `InProgress`.
pub proof fn lemma_placed_order_terms(
    s: ListingState,
    client: Address,
    service_id: u64,
    requirements: String,
    ledger_sequence: u32,
)
    requires
        service_id < s.services.len(),
        ledger_sequence + s.services[service_id as int].delivery_ledgers <= u32::MAX,
    ensures
        ({
            let o = s.placed_order(client, service_id, requirements, ledger_sequence);
            let svc = s.services[service_id as int];
            &&& o.service_id == service_id
            &&& o.client == client
            &&& o.freelancer == svc.freelancer
            &&& o.token == svc.token
            &&& o.amount == svc.price
            &&& o.fee == fee_for(svc.price as int, s.fee_bps as int) as i128
            &&& o.requirements == requirements
            &&& o.deadline_ledger == ledger_sequence + svc.delivery_ledgers
            &&& o.status is InProgress
        }),
{
}

/// In every reachable state, a service's completed-orders count is the
/// number of its orders that are completed.
pub proof fn lemma_orders_completed_counts(s: ListingState, service_id: int)
    requires
        s.wf(),
        0 <= service_id < s.services.len(),
    ensures
        s.services[service_id].orders_completed == completed_count(s.orders, service_id),
{
}

impl ServiceListingContract {
    /// A freshly deployed contract, not yet initialized.
    pub fn new() -> (c: Self)
        ensures
            c@ == (ListingState {
                admin: None,
                fee_bps: 0,
                services: Seq::empty(),
                orders: Seq::empty(),
            }),
            c@.wf(),
    {
        ServiceListingContract { admin: None, fee_bps: 0, services: Vec::new(), orders: Vec::new() }
    }

    /// The contract over storage read back from the ledger.
    pub fn from_parts(
        admin: Option<Address>,
        fee_bps: u32,
        services: Vec<ServiceListing>,
        orders: Vec<Order>,
    ) -> (c: Self)
        ensures
            c@ == (ListingState { admin, fee_bps, services: services@, orders: orders@ }),
    {
        ServiceListingContract { admin, fee_bps, services, orders }
    }

    /// The storage, to be written back to the ledger.
    pub fn into_parts(self) -> (r: (Option<Address>, u32, Vec<ServiceListing>, Vec<Order>))
        ensures
            r.0 == self@.admin,
            r.1 == self@.fee_bps,
            r.2@ == self@.services,
            r.3@ == self@.orders,
    {
        (self.admin, self.fee_bps, self.services, self.orders)
    }

    /// One-time initializer: sets the admin and the platform fee in basis
    /// points. Refused once an admin is set.
    pub fn initialize(&mut self, admin: Address, fee_bps: u32) -> (r: Result<(), ListingError>)
        ensures
            match r {
                Ok(()) => old(self)@.initialize_error() is None && final(self)@ == (ListingState {
                    admin: Some(admin),
                    fee_bps,
                    ..old(self)@
                }),
                Err(e) => old(self)@.initialize_error() == Some(e) && final(self)@ == old(self)@,
            },
            old(self)@.wf() ==> final(self)@.wf(),
            final(self)@.evolves_from(old(self)@),
            final(self)@.escrow_moved_by(old(self)@, Seq::empty()),
    {
        if self.admin.is_some() {
            return Err(ListingError::AlreadyInitialized);
        }
        self.admin = Some(admin);
        self.fee_bps = fee_bps;
        proof {
            assert forall|t: Address| #[trigger]
                self@.escrow(t) == old(self)@.escrow(t) + net_inflow(Seq::empty(), t) by {}
        }
        Ok(())
    }

    /// A freelancer lists a service; it is active, has no completed orders,
    /// and gets the next service id.
    pub fn create_service(
        &mut self,
        freelancer: Address,
        token: Address,
        price: i128,
        title: String,
        description: String,
        category: String,
        delivery_ledgers: u32,
    ) -> (r: Result<(u64, ListingEvent), ListingError>)
        ensures
            match r {
                Ok((id, ev)) => {
                    &&& old(self)@.create_service_error() is None
                    &&& id == old(self)@.services.len()
                    &&& final(self)@ == (ListingState {
                        services: old(self)@.services.push(
                            ServiceListing {
                                freelancer,
                                token,
                                price,
                                title,
                                description,
                                category,
                                delivery_ledgers,
                                orders_completed: 0,
                                status: ServiceStatus::Active,
                            },
                        ),
                        ..old(self)@
                    })
                    &&& ev == (ListingEvent::ServiceCreated {
                        freelancer,
                        service_id: id,
                        token,
                        price,
                    })
                },
                Err(e) => old(self)@.create_service_error() == Some(e) && final(self)@ == old(self)@,
            },
            final(self)@.escrow_moved_by(old(self)@, Seq::empty()),
            old(self)@.wf() ==> final(self)@.wf(),
            final(self)@.evolves_from(old(self)@),
    {
        if self.admin.is_none() {
            return Err(ListingError::NotInitialized);
        }
        let id = self.services.len() as u64;
        if id == u64::MAX {
            return Err(ListingError::Overflow);
        }
        self.services.push(
            ServiceListing {
                freelancer,
                token,
                price,
                title,
                description,
                category,
                delivery_ledgers,
                orders_completed: 0,
                status: ServiceStatus::Active,
            },
        );
        proof {
            let o = old(self)@;
            let n = self@;
            assert forall|t: Address| #[trigger]
                n.escrow(t) == o.escrow(t) + net_inflow(Seq::empty(), t) by {}
            assert forall|k: int| 0 <= k < o.services.len() implies #[trigger] service_advances(
                o.services[k],
                n.services[k],
            ) by {
                assert(n.services[k] == o.services[k]);
            }
            assert forall|k: int| 0 <= k < o.orders.len() implies #[trigger] order_advances(
                o.orders[k],
                n.orders[k],
            ) by {}
            if o.wf() {
                assert forall|k: int| 0 <= k < n.orders.len() implies #[trigger] n.order_wf(
                    n.orders[k],
                ) by {
                    assert(o.order_wf(o.orders[k]));
                }
                assert forall|s: int| 0 <= s < n.services.len() implies (#[trigger] n.services[
                    s
                ]).orders_completed == completed_count(n.orders, s) by {
                    if s < o.services.len() {
                        assert(o.services[s].orders_completed == completed_count(o.orders, s));
                    } else {
                        assert forall|k: int| 0 <= k < o.orders.len() implies o.orders[k].service_id
                            != s by {
                            assert(o.order_wf(o.orders[k]));
                        }
                        lemma_count_unnamed(o.orders, s);
                    }
                }
            }
        }
        Ok((id, ListingEvent::ServiceCreated { freelancer, service_id: id, token, price }))
    }

    /// A client buys an active service: its current price plus the platform
    /// fee on it move from the client into escrow, and an order in progress
    /// gets the next order id, due `delivery_ledgers` after the current
    /// ledger `ledger_sequence`.
    pub fn purchase_service(
        &mut self,
        client: Address,
        service_id: u64,
        requirements: String,
        ledger_sequence: u32,
    ) -> (r: Result<(u64, Vec<Transfer>, ListingEvent), ListingError>)
        ensures
            match r {
                Ok((id, ts, ev)) => {
                    let order = old(self)@.placed_order(
                        client,
                        service_id,
                        requirements,
                        ledger_sequence,
                    );
                    &&& old(self)@.purchase_service_error(service_id, ledger_sequence) is None
                    &&& id == old(self)@.orders.len()
                    &&& final(self)@ == (ListingState {
                        orders: old(self)@.orders.push(order),
                        ..old(self)@
                    })
                    &&& final(self)@.orders[id as int].service_id == service_id
                    &&& final(self)@.orders[id as int].client == client
                    &&& final(self)@.orders[id as int].freelancer
                        == old(self)@.services[service_id as int].freelancer
                    &&& final(self)@.orders[id as int].token == old(self)@.services[service_id as int].token
                    &&& final(self)@.orders[id as int].amount == old(self)@.services[service_id as int].price
                    &&& final(self)@.orders[id as int].fee == fee_for(
                        old(self)@.services[service_id as int].price as int,
                        old(self)@.fee_bps as int,
                    )
                    &&& final(self)@.orders[id as int].requirements == requirements
                    &&& final(self)@.orders[id as int].deadline_ledger == ledger_sequence
                        + old(self)@.services[service_id as int].delivery_ledgers
                    &&& final(self)@.orders[id as int].status is InProgress
                    &&& ts@ == seq![
                        Transfer::Deposit {
                            token: order.token,
                            from: client,
                            amount: (order.amount + order.fee) as i128,
                        },
                    ]
                    &&& ev == (ListingEvent::OrderPlaced {
                        client,
                        order_id: id,
                        service_id,
                        price: order.amount,
                    })
                    &&& final(self)@.escrow_moved_by(old(self)@, ts@)
                },
                Err(e) => old(self)@.purchase_service_error(service_id, ledger_sequence) == Some(e)
                    && final(self)@ == old(self)@,
            },
            old(self)@.wf() ==> final(self)@.wf(),
            final(self)@.evolves_from(old(self)@),
    {
        if service_id >= self.services.len() as u64 {
            return Err(ListingError::ServiceNotFound);
        }
        let s = service_id as usize;
        if self.services[s].status != ServiceStatus::Active {
            return Err(ListingError::ServiceNotActive);
        }
        if self.admin.is_none() {
            return Err(ListingError::NotInitialized);
        }
        let price = self.services[s].price;
        let fee = match compute_fee(price, self.fee_bps) {
            Some(f) => f,
            None => return Err(ListingError::Overflow),
        };
        let total = match price.checked_add(fee) {
            Some(t) => t,
            None => return Err(ListingError::Overflow),
        };
        let deadline = match ledger_sequence.checked_add(self.services[s].delivery_ledgers) {
            Some(d) => d,
            None => return Err(ListingError::Overflow),
        };
        let id = self.orders.len() as u64;
        if id == u64::MAX {
            return Err(ListingError::Overflow);
        }
        let freelancer = self.services[s].freelancer;
        let token = self.services[s].token;
        let order = Order {
            service_id,
            client,
            freelancer,
            token,
            amount: price,
            fee,
            requirements,
            deadline_ledger: deadline,
            status: OrderStatus::InProgress,
        };
        let ghost stored = order;
        self.orders.push(order);
        let mut ts: Vec<Transfer> = Vec::new();
        ts.push(Transfer::Deposit { token, from: client, amount: total });
        proof {
            let o = old(self)@;
            let n = self@;
            assert(ts@ =~= seq![Transfer::Deposit { token, from: client, amount: total }]);
            assert forall|t: Address| #[trigger] n.escrow(t) == o.escrow(t) + net_inflow(ts@, t) by {
                lemma_escrow_push(o.orders, stored, t);
                lemma_net_inflow_one(Transfer::Deposit { token, from: client, amount: total }, t);
            }
            assert forall|k: int| 0 <= k < o.services.len() implies #[trigger] service_advances(
                o.services[k],
                n.services[k],
            ) by {}
            assert forall|k: int| 0 <= k < o.orders.len() implies #[trigger] order_advances(
                o.orders[k],
                n.orders[k],
            ) by {
                assert(n.orders[k] == o.orders[k]);
            }
            if o.wf() {
                assert forall|k: int| 0 <= k < n.orders.len() implies #[trigger] n.order_wf(
                    n.orders[k],
                ) by {
                    if k < o.orders.len() {
                        assert(o.order_wf(o.orders[k]));
                    }
                }
                assert forall|x: int| 0 <= x < n.services.len() implies (#[trigger] n.services[
                    x
                ]).orders_completed == completed_count(n.orders, x) by {
                    assert(o.services[x].orders_completed == completed_count(o.orders, x));
                    lemma_count_push(o.orders, stored, x);
                }
            }
        }
        Ok((id, ts, ListingEvent::OrderPlaced { client, order_id: id, service_id, price }))
    }

    /// The freelancer of an order in progress marks it delivered.
    pub fn deliver_order(&mut self, freelancer: Address, order_id: u64) -> (r: Result<
        ListingEvent,
        ListingError,
    >)
        ensures
            match r {
                Ok(ev) => {
                    &&& old(self)@.deliver_order_error(freelancer, order_id) is None
                    &&& final(self)@ == (ListingState {
                        orders: old(self)@.orders.update(
                            order_id as int,
                            old(self)@.order_with_status(order_id, OrderStatus::Delivered),
                        ),
                        ..old(self)@
                    })
                    &&& ev == (ListingEvent::OrderDelivered { freelancer, order_id })
                },
                Err(e) => old(self)@.deliver_order_error(freelancer, order_id) == Some(e) && final(self)@ == old(self)@,
            },
            final(self)@.escrow_moved_by(old(self)@, Seq::empty()),
            old(self)@.wf() ==> final(self)@.wf(),
            final(self)@.evolves_from(old(self)@),
    {
        if order_id >= self.orders.len() as u64 {
            return Err(ListingError::OrderNotFound);
        }
        let o = order_id as usize;
        if self.orders[o].freelancer != freelancer {
            return Err(ListingError::NotFreelancer);
        }
        if self.orders[o].status != OrderStatus::InProgress {
            return Err(ListingError::NotInProgress);
        }
        self.orders[o].status = OrderStatus::Delivered;
        proof {
            let old_state = old(self)@;
            let no = self@.orders[o as int];
            lemma_replace_order(old_state, o as int, no);
            assert forall|t: Address| #[trigger]
                self@.escrow(t) == old_state.escrow(t) + net_inflow(Seq::empty(), t) by {}
            if old_state.wf() {
                lemma_replace_order_wf(old_state, o as int, no);
            }
        }
        Ok(ListingEvent::OrderDelivered { freelancer, order_id })
    }

    /// The client accepts a delivered order: the amount is paid to the
    /// freelancer, the fee (where positive) to the admin, the order is
    /// completed and its service counts one more completed order.
    pub fn accept_delivery(&mut self, client: Address, order_id: u64) -> (r: Result<
        (Vec<Transfer>, ListingEvent),
        ListingError,
    >)
        ensures
            match r {
                Ok((ts, ev)) => {
                    let order = old(self)@.orders[order_id as int];
                    let svc = old(self)@.services[order.service_id as int];
                    &&& old(self)@.accept_delivery_error(client, order_id) is None
                    &&& final(self)@ == (ListingState {
                        orders: old(self)@.orders.update(
                            order_id as int,
                            old(self)@.order_with_status(order_id, OrderStatus::Completed),
                        ),
                        services: old(self)@.services.update(
                            order.service_id as int,
                            ServiceListing {
                                orders_completed: (svc.orders_completed + 1) as u64,
                                ..svc
                            },
                        ),
                        ..old(self)@
                    })
                    &&& ts@ == delivery_payouts(order, old(self)@.admin.unwrap())
                    &&& payouts_in(ts@, order.token)
                    &&& forall|who: Address| #[trigger]
                        paid_to(ts@, who) == share_of(who, order.freelancer, order.amount as int)
                            + share_of(who, old(self)@.admin.unwrap(), positive_part(order.fee as int))
                    &&& ev == (ListingEvent::OrderCompleted {
                        client,
                        order_id,
                        freelancer: order.freelancer,
                        amount: order.amount,
                    })
                    &&& (order.fee >= 0 ==> final(self)@.escrow_moved_by(old(self)@, ts@))
                },
                Err(e) => old(self)@.accept_delivery_error(client, order_id) == Some(e) && final(self)@ == old(self)@,
            },
            old(self)@.wf() ==> r != Err::<(Vec<Transfer>, ListingEvent), ListingError>(
                ListingError::NotInitialized,
            ) && r != Err::<(Vec<Transfer>, ListingEvent), ListingError>(
                ListingError::ServiceNotFound,
            ) && r != Err::<(Vec<Transfer>, ListingEvent), ListingError>(ListingError::Overflow),
            old(self)@.wf() ==> final(self)@.wf(),
            final(self)@.evolves_from(old(self)@),
    {
        if order_id >= self.orders.len() as u64 {
            return Err(ListingError::OrderNotFound);
        }
        let o = order_id as usize;
        if self.orders[o].client != client {
            return Err(ListingError::NotClient);
        }
        if self.orders[o].status != OrderStatus::Delivered {
            return Err(ListingError::NotDelivered);
        }
        proof {
            if old(self)@.wf() {
                assert(old(self)@.order_wf(old(self)@.orders[o as int]));
            }
        }
        let admin = match self.admin {
            Some(a) => a,
            None => return Err(ListingError::NotInitialized),
        };
        let sid = self.orders[o].service_id;
        if sid >= self.services.len() as u64 {
            return Err(ListingError::ServiceNotFound);
        }
        let s = sid as usize;
        if self.services[s].orders_completed == u64::MAX {
            proof {
                if old(self)@.wf() {
                    assert(old(self)@.services[s as int].orders_completed == completed_count(
                        old(self)@.orders,
                        s as int,
                    ));
                    lemma_count_below(old(self)@.orders, s as int, o as int);
                }
            }
            return Err(ListingError::Overflow);
        }
        let freelancer = self.orders[o].freelancer;
        let token = self.orders[o].token;
        let amount = self.orders[o].amount;
        let fee = self.orders[o].fee;
        let mut ts: Vec<Transfer> = Vec::new();
        ts.push(Transfer::Payout { token, to: freelancer, amount });
        if fee > 0 {
            ts.push(Transfer::Payout { token, to: admin, amount: fee });
        }
        let ghost mid = ListingState {
            orders: old(self)@.orders.update(
                o as int,
                old(self)@.order_with_status(order_id, OrderStatus::Completed),
            ),
            ..old(self)@
        };
        self.orders[o].status = OrderStatus::Completed;
        self.services[s].orders_completed = self.services[s].orders_completed + 1;
        proof {
            let os = old(self)@;
            let n = self@;
            let no = os.order_with_status(order_id, OrderStatus::Completed);
            let pf = Transfer::Payout { token, to: freelancer, amount };
            let pa = Transfer::Payout { token, to: admin, amount: fee };
            assert(n.orders =~= mid.orders);
            lemma_replace_order(os, o as int, no);
            if fee > 0 {
                assert(ts@ =~= seq![pf, pa]);
            } else {
                assert(ts@ =~= seq![pf]);
            }
            assert forall|who: Address| #[trigger]
                paid_to(ts@, who) == share_of(who, freelancer, amount as int) + share_of(
                    who,
                    admin,
                    positive_part(fee as int),
                ) by {
                lemma_paid_to_one(pf, who);
                lemma_paid_to_two(pf, pa, who);
            }
            assert(ts@ =~= delivery_payouts(os.orders[o as int], admin));
            if fee >= 0 {
                assert forall|t: Address| #[trigger]
                    n.escrow(t) == os.escrow(t) + net_inflow(ts@, t) by {
                    assert(n.escrow(t) == mid.escrow(t));
                    lemma_net_inflow_one(pf, t);
                    lemma_net_inflow_two(pf, pa, t);
                }
            }
            assert forall|k: int| 0 <= k < os.services.len() implies #[trigger] service_advances(
                os.services[k],
                n.services[k],
            ) by {}
            assert forall|k: int| 0 <= k < os.orders.len() implies #[trigger] order_advances(
                os.orders[k],
                n.orders[k],
            ) by {
                assert(order_advances(os.orders[k], mid.orders[k]));
            }
            if os.wf() {
                assert forall|k: int| 0 <= k < n.orders.len() implies #[trigger] n.order_wf(
                    n.orders[k],
                ) by {
                    assert(os.order_wf(os.orders[k]));
                }
                assert forall|x: int| 0 <= x < n.services.len() implies (#[trigger] n.services[
                    x
                ]).orders_completed == completed_count(n.orders, x) by {
                    assert(os.services[x].orders_completed == completed_count(os.orders, x));
                    lemma_count_update(os.orders, o as int, no, x);
                }
            }
        }
        Ok((ts, ListingEvent::OrderCompleted { client, order_id, freelancer, amount }))
    }

    /// The client or the freelancer cancels an order not yet delivered:
    /// amount and fee go back to the client.
    pub fn cancel_order(&mut self, caller: Address, order_id: u64) -> (r: Result<
        (Vec<Transfer>, ListingEvent),
        ListingError,
    >)
        ensures
            match r {
                Ok((ts, ev)) => {
                    let order = old(self)@.orders[order_id as int];
                    let refund = (order.amount + order.fee) as i128;
                    &&& old(self)@.cancel_order_error(caller, order_id) is None
                    &&& final(self)@ == (ListingState {
                        orders: old(self)@.orders.update(
                            order_id as int,
                            old(self)@.order_with_status(order_id, OrderStatus::Cancelled),
                        ),
                        ..old(self)@
                    })
                    &&& ts@ == seq![Transfer::Payout { token: order.token, to: order.client, amount: refund }]
                    &&& ev == (ListingEvent::OrderCancelled { caller, order_id, refund })
                    &&& final(self)@.escrow_moved_by(old(self)@, ts@)
                },
                Err(e) => old(self)@.cancel_order_error(caller, order_id) == Some(e) && final(self)@ == old(self)@,
            },
            old(self)@.wf() ==> r != Err::<(Vec<Transfer>, ListingEvent), ListingError>(
                ListingError::Overflow,
            ),
            old(self)@.wf() ==> final(self)@.wf(),
            final(self)@.evolves_from(old(self)@),
    {
        if order_id >= self.orders.len() as u64 {
            return Err(ListingError::OrderNotFound);
        }
        let o = order_id as usize;
        if caller != self.orders[o].client && caller != self.orders[o].freelancer {
            return Err(ListingError::NotAParty);
        }
        if self.orders[o].status != OrderStatus::InProgress
            && self.orders[o].status != OrderStatus::Pending {
            return Err(ListingError::CannotCancel);
        }
        let refund = match self.orders[o].amount.checked_add(self.orders[o].fee) {
            Some(x) => x,
            None => {
                proof {
                    if old(self)@.wf() {
                        assert(old(self)@.order_wf(old(self)@.orders[o as int]));
                    }
                }
                return Err(ListingError::Overflow);
            },
        };
        let token = self.orders[o].token;
        let order_client = self.orders[o].client;
        self.orders[o].status = OrderStatus::Cancelled;
        let mut ts: Vec<Transfer> = Vec::new();
        ts.push(Transfer::Payout { token, to: order_client, amount: refund });
        proof {
            let os = old(self)@;
            let no = self@.orders[o as int];
            lemma_replace_order(os, o as int, no);
            assert(ts@ =~= seq![Transfer::Payout { token, to: order_client, amount: refund }]);
            assert forall|t: Address| #[trigger]
                self@.escrow(t) == os.escrow(t) + net_inflow(ts@, t) by {
                lemma_net_inflow_one(Transfer::Payout { token, to: order_client, amount: refund }, t);
            }
            if os.wf() {
                lemma_replace_order_wf(os, o as int, no);
            }
        }
        Ok((ts, ListingEvent::OrderCancelled { caller, order_id, refund }))
    }

    /// The owner of a service switches it between active and paused.
    pub fn toggle_service(&mut self, freelancer: Address, service_id: u64) -> (r: Result<
        ListingEvent,
        ListingError,
    >)
        ensures
            match r {
                Ok(ev) => {
                    let svc = old(self)@.services[service_id as int];
                    &&& old(self)@.toggle_service_error(freelancer, service_id) is None
                    &&& final(self)@ == (ListingState {
                        services: old(self)@.services.update(
                            service_id as int,
                            ServiceListing { status: toggled(svc.status), ..svc },
                        ),
                        ..old(self)@
                    })
                    &&& ev == (ListingEvent::ServiceToggled { freelancer, service_id })
                },
                Err(e) => old(self)@.toggle_service_error(freelancer, service_id) == Some(e)
                    && final(self)@ == old(self)@,
            },
            final(self)@.escrow_moved_by(old(self)@, Seq::empty()),
            old(self)@.wf() ==> final(self)@.wf(),
            final(self)@.evolves_from(old(self)@),
    {
        if service_id >= self.services.len() as u64 {
            return Err(ListingError::ServiceNotFound);
        }
        let s = service_id as usize;
        if self.services[s].freelancer != freelancer {
            return Err(ListingError::NotOwner);
        }
        let next = match self.services[s].status {
            ServiceStatus::Active => ServiceStatus::Paused,
            ServiceStatus::Paused => ServiceStatus::Active,
            ServiceStatus::Deleted => return Err(ListingError::ServiceDeleted),
        };
        self.services[s].status = next;
        proof {
            lemma_replace_service(old(self)@, s as int, self@.services[s as int]);
            assert(self@.services =~= old(self)@.services.update(s as int, self@.services[s as int]));
        }
        Ok(ListingEvent::ServiceToggled { freelancer, service_id })
    }

    /// The owner of a service sets a new price; orders already placed keep
    /// theirs.
    pub fn update_price(&mut self, freelancer: Address, service_id: u64, new_price: i128) -> (r:
        Result<ListingEvent, ListingError>)
        ensures
            match r {
                Ok(ev) => {
                    let svc = old(self)@.services[service_id as int];
                    &&& old(self)@.update_price_error(freelancer, service_id) is None
                    &&& final(self)@ == (ListingState {
                        services: old(self)@.services.update(
                            service_id as int,
                            ServiceListing { price: new_price, ..svc },
                        ),
                        ..old(self)@
                    })
                    &&& ev == (ListingEvent::PriceUpdated { freelancer, service_id, new_price })
                },
                Err(e) => old(self)@.update_price_error(freelancer, service_id) == Some(e) && final(self)@ == old(self)@,
            },
            final(self)@.escrow_moved_by(old(self)@, Seq::empty()),
            old(self)@.wf() ==> final(self)@.wf(),
            final(self)@.evolves_from(old(self)@),
    {
        if service_id >= self.services.len() as u64 {
            return Err(ListingError::ServiceNotFound);
        }
        let s = service_id as usize;
        if self.services[s].freelancer != freelancer {
            return Err(ListingError::NotOwner);
        }
        self.services[s].price = new_price;
        proof {
            lemma_replace_service(old(self)@, s as int, self@.services[s as int]);
            assert(self@.services =~= old(self)@.services.update(s as int, self@.services[s as int]));
        }
        Ok(ListingEvent::PriceUpdated { freelancer, service_id, new_price })
    }

    /// The service with id `service_id`.
    pub fn get_service(&self, service_id: u64) -> (r: Result<&ServiceListing, ListingError>)
        ensures
            match r {
                Ok(svc) => service_id < self@.services.len() && *svc == self@.services[service_id as int],
                Err(e) => service_id >= self@.services.len() && e == ListingError::ServiceNotFound,
            },
    {
        if service_id >= self.services.len() as u64 {
            return Err(ListingError::ServiceNotFound);
        }
        Ok(&self.services[service_id as usize])
    }

    /// The order with id `order_id`.
    pub fn get_order(&self, order_id: u64) -> (r: Result<&Order, ListingError>)
        ensures
            match r {
                Ok(order) => order_id < self@.orders.len() && *order == self@.orders[order_id as int],
                Err(e) => order_id >= self@.orders.len() && e == ListingError::OrderNotFound,
            },
    {
        if order_id >= self.orders.len() as u64 {
            return Err(ListingError::OrderNotFound);
        }
        Ok(&self.orders[order_id as usize])
    }
}

} // verus!

//! Values shared by the three contracts: account identities, token
//! movements, the platform fee, and sums over sequences of records.
use vstd::prelude::*;

verus! {

/// An account or contract on the ledger. The ledger's own address type is
/// opaque; the contracts only ever compare addresses, so an address is
/// represented by a number that identifies it.
#[derive(Clone, Copy, Debug, PartialEq, Eq, Hash, Structural)]
pub struct Address(pub u64);

/// A movement of tokens that a successful call asks the host to perform.
/// The escrow is the contract's own account.
#[derive(Clone, Copy, Debug, PartialEq, Eq, Structural)]
pub enum Transfer {
    /// `amount` of `token` moves from `from` into the escrow.
    Deposit { token: Address, from: Address, amount: i128 },
    /// `amount` of `token` moves out of the escrow to `to`.
    Payout { token: Address, to: Address, amount: i128 },
}

/// What one transfer adds to the escrow's holding of `token`.
pub open spec fn flow_of(t: Transfer, token: Address) -> int {
    match t {
        Transfer::Deposit { token: tk, amount, .. } => if tk == token { amount as int } else { 0 },
        Transfer::Payout { token: tk, amount, .. } => if tk == token { -(amount as int) } else { 0 },
    }
}

/// What a list of transfers adds, in all, to the escrow's holding of `token`.
pub open spec fn net_inflow(ts: Seq<Transfer>, token: Address) -> int
    decreases ts.len(),
{
    if ts.len() == 0 {
        0
    } else {
        net_inflow(ts.drop_last(), token) + flow_of(ts.last(), token)
    }
}

/// The sum of a sequence of integers.
pub open spec fn sum_of(s: Seq<int>) -> int
    decreases s.len(),
{
    if s.len() == 0 {
        0
    } else {
        sum_of(s.drop_last()) + s.last()
    }
}

/// Integer division rounded toward zero, as machine division does it.
pub open spec fn div_toward_zero(a: int, b: int) -> int {
    if a >= 0 {
        a / b
    } else {
        -((-a) / b)
    }
}

/// The platform fee on `amount` at `fee_bps` basis points:
/// `amount * fee_bps / 10_000`, rounded toward zero.
pub open spec fn fee_for(amount: int, fee_bps: int) -> int {
    div_toward_zero(amount * fee_bps, 10_000)
}

/// Whether the fee on `amount` at `fee_bps` can be computed in `i128`.
pub open spec fn fee_computable(amount: i128, fee_bps: u32) -> bool {
    i128::MIN <= amount * fee_bps <= i128::MAX
}

/// Whether an integer fits in `i128`.
pub open spec fn fits_i128(x: int) -> bool {
    i128::MIN <= x <= i128::MAX
}

/// The fee on `amount` at `fee_bps` basis points, or `None` where the
/// product overflows.
pub fn compute_fee(amount: i128, fee_bps: u32) -> (r: Option<i128>)
    ensures
        r is Some <==> fee_computable(amount, fee_bps),
        r matches Some(f) ==> f == fee_for(amount as int, fee_bps as int),
{
    match amount.checked_mul(fee_bps as i128) {
        Some(p) => Some(p / 10_000),
        None => None,
    }
}

pub(crate) proof fn lemma_sum_push(s: Seq<int>, x: int)
    ensures
        sum_of(s.push(x)) == sum_of(s) + x,
{
    assert(s.push(x).drop_last() =~= s);
}

pub(crate) proof fn lemma_sum_update(s: Seq<int>, i: int, x: int)
    requires
        0 <= i < s.len(),
    ensures
        sum_of(s.update(i, x)) == sum_of(s) - s[i] + x,
    decreases s.len(),
{
    if i == s.len() - 1 {
        assert(s.update(i, x).drop_last() =~= s.drop_last());
    } else {
        lemma_sum_update(s.drop_last(), i, x);
        assert(s.update(i, x).drop_last() =~= s.drop_last().update(i, x));
    }
}

pub(crate) proof fn lemma_sum_zero(s: Seq<int>)
    requires
        forall|i: int| 0 <= i < s.len() ==> s[i] == 0,
    ensures
        sum_of(s) == 0,
    decreases s.len(),
{
    if s.len() > 0 {
        lemma_sum_zero(s.drop_last());
    }
}

/// A sum of zeros and ones is at most the length, and below it when one
/// term is zero.
pub(crate) proof fn lemma_sum_of_bits(s: Seq<int>, k: int)
    requires
        forall|i: int| 0 <= i < s.len() ==> s[i] == 0 || s[i] == 1,
    ensures
        0 <= sum_of(s) <= s.len(),
        0 <= k < s.len() && s[k] == 0 ==> sum_of(s) <= s.len() - 1,
    decreases s.len(),
{
    if s.len() > 0 {
        lemma_sum_of_bits(s.drop_last(), k);
    }
}

pub(crate) proof fn lemma_net_inflow_one(a: Transfer, token: Address)
    ensures
        net_inflow(seq![a], token) == flow_of(a, token),
{
    assert(seq![a].drop_last() =~= Seq::<Transfer>::empty());
    assert(net_inflow(Seq::<Transfer>::empty(), token) == 0);
    assert(seq![a].last() == a);
}

pub(crate) proof fn lemma_net_inflow_two(a: Transfer, b: Transfer, token: Address)
    ensures
        net_inflow(seq![a, b], token) == flow_of(a, token) + flow_of(b, token),
{
    assert(seq![a, b].drop_last() =~= seq![a]);
    assert(seq![a, b].last() == b);
    lemma_net_inflow_one(a, token);
}

/// What one transfer pays out of escrow to `who`.
pub open spec fn payout_to(t: Transfer, who: Address) -> int {
    match t {
        Transfer::Payout { to, amount, .. } => if to == who { amount as int } else { 0 },
        Transfer::Deposit { .. } => 0,
    }
}

/// What a list of transfers pays out of escrow to `who`, in all.
pub open spec fn paid_to(ts: Seq<Transfer>, who: Address) -> int
    decreases ts.len(),
{
    if ts.len() == 0 {
        0
    } else {
        paid_to(ts.drop_last(), who) + payout_to(ts.last(), who)
    }
}

/// Every transfer in `ts` is a payout out of escrow in `token`.
pub open spec fn payouts_in(ts: Seq<Transfer>, token: Address) -> bool {
    forall|i: int| 0 <= i < ts.len() ==> (#[trigger] ts[i] matches Transfer::Payout { token: tk, .. } && tk == token)
}

/// `x` where it is positive, else 0.
pub open spec fn positive_part(x: int) -> int {
    if x > 0 {
        x
    } else {
        0
    }
}

/// `amount` where `who` is `party`, else 0.
pub open spec fn share_of(who: Address, party: Address, amount: int) -> int {
    if who == party {
        amount
    } else {
        0
    }
}

pub(crate) proof fn lemma_paid_to_none(who: Address)
    ensures
        paid_to(Seq::<Transfer>::empty(), who) == 0,
{
}

pub(crate) proof fn lemma_paid_to_one(a: Transfer, who: Address)
    ensures
        paid_to(seq![a], who) == payout_to(a, who),
{
    assert(seq![a].drop_last() =~= Seq::<Transfer>::empty());
    assert(paid_to(Seq::<Transfer>::empty(), who) == 0);
    assert(seq![a].last() == a);
}

pub(crate) proof fn lemma_paid_to_two(a: Transfer, b: Transfer, who: Address)
    ensures
        paid_to(seq![a, b], who) == payout_to(a, who) + payout_to(b, who),
{
    assert(seq![a, b].drop_last() =~= seq![a]);
    assert(seq![a, b].last() == b);
    lemma_paid_to_one(a, who);
}

} // verus!

use vstd::prelude::*;

use crate::config::{
    lemma_entry_le_sum, lemma_sum_nonneg, sum_percentage, valid_destinations, FeeDestination,
    Handle, Router, TOTAL_BASIS_POINTS,
};
use crate::errors::ErrorCode;

verus! {

/// One transfer the hosting ledger must execute: move `amount` native units
/// from `from` to `to`.
#[derive(Clone, Copy, Debug, PartialEq, Eq, Structural)]
pub struct Transfer {
    pub from: Handle,
    pub to: Handle,
    pub amount: u64,
}

/// The share of `amount` owed to a destination holding `percentage` basis
/// points: `floor(amount * percentage / 10000)`.
pub open spec fn share(amount: u64, percentage: u16) -> int {
    (amount * percentage) / (TOTAL_BASIS_POINTS as int)
}

/// The full transfer list for one routing operation: one transfer per stored
/// destination whose share is positive, in stored order; zero shares are
/// skipped, not errors.
pub open spec fn spec_plan(sender: Handle, amount: u64, dests: Seq<FeeDestination>) -> Seq<
    Transfer,
>
    decreases dests.len(),
{
    if dests.len() == 0 {
        Seq::empty()
    } else {
        let d = dests.last();
        spec_plan(sender, amount, dests.drop_last()) + if share(amount, d.percentage) > 0 {
            seq![Transfer { from: sender, to: d.address, amount: share(amount, d.percentage) as u64 }]
        } else {
            Seq::empty()
        }
    }
}

/// The total number of native units a transfer plan moves out of the sender.
pub open spec fn plan_total(p: Seq<Transfer>) -> int
    decreases p.len(),
{
    if p.len() == 0 {
        0
    } else {
        plan_total(p.drop_last()) + p.last().amount
    }
}

/// Law: routing never moves more than the requested amount. For any table
/// whose shares sum to at most 10000 basis points, the transfers of
/// [`spec_plan`] total at most `floor(amount * sum / 10000)`, hence at most
/// `amount` itself for a committed (100%) table; the truncation residual
/// stays with the sender.
pub proof fn lemma_plan_within_amount(sender: Handle, amount: u64, dests: Seq<FeeDestination>)
    requires
        sum_percentage(dests) <= TOTAL_BASIS_POINTS,
    ensures
        plan_total(spec_plan(sender, amount, dests)) <= amount,
{
    lemma_sum_nonneg(dests);
    lemma_plan_total_le_scaled(sender, amount, dests);
    let s = sum_percentage(dests);
    let k = TOTAL_BASIS_POINTS as int;
    assert((amount * s) / k <= amount) by (nonlinear_arith)
        requires
            amount >= 0,
            0 <= s <= k,
            k > 0,
    ;
}

/// Law: the truncation residual is small. For a committed table (shares
/// summing to exactly 10000 basis points), the transfers of [`spec_plan`]
/// total at least `amount - (len - 1)`: each destination's floor loses
/// strictly less than one unit, so the sender retains at most `len - 1`
/// units of the requested amount.
pub proof fn lemma_plan_residual_bound(sender: Handle, amount: u64, dests: Seq<FeeDestination>)
    requires
        valid_destinations(dests),
    ensures
        plan_total(spec_plan(sender, amount, dests)) >= amount - (dests.len() - 1),
{
    let k = TOTAL_BASIS_POINTS as int;
    let n = dests.len() as int;
    let total = plan_total(spec_plan(sender, amount, dests));
    lemma_plan_total_ge_scaled(sender, amount, dests);
    assert(total * k >= amount * k - n * (k - 1));
    if total <= amount - n {
        assert(total * k <= (amount - n) * k && (amount - n) * k < amount * k - n * (k - 1))
            by (nonlinear_arith)
            requires
                total <= amount - n,
                n >= 1,
                k > 1,
        ;
    }
}

/// The transfers of [`spec_plan`] total, scaled back up by 10000, at least
/// the exact proportional share of the whole table less one rounding loss of
/// under one unit per destination.
proof fn lemma_plan_total_ge_scaled(sender: Handle, amount: u64, dests: Seq<FeeDestination>)
    requires
        sum_percentage(dests) <= TOTAL_BASIS_POINTS,
    ensures
        plan_total(spec_plan(sender, amount, dests)) * (TOTAL_BASIS_POINTS as int) >= amount
            * sum_percentage(dests) - dests.len() * ((TOTAL_BASIS_POINTS as int) - 1),
    decreases dests.len(),
{
    let k = TOTAL_BASIS_POINTS as int;
    lemma_sum_nonneg(dests);
    if dests.len() == 0 {
    } else {
        let init = dests.drop_last();
        let d = dests.last();
        lemma_sum_nonneg(init);
        lemma_plan_total_ge_scaled(sender, amount, init);
        lemma_plan_total_le_scaled(sender, amount, init);
        let p = spec_plan(sender, amount, dests);
        let t_init = plan_total(spec_plan(sender, amount, init));
        let b = amount * d.percentage;
        assert(b >= 0 && (b / k) * k >= b - (k - 1) && 0 <= b / k <= amount) by (nonlinear_arith)
            requires
                amount >= 0,
                0 <= d.percentage <= k,
                b == amount * d.percentage,
                k > 0,
        ;
        assert(share(amount, d.percentage) == b / k);
        if share(amount, d.percentage) > 0 {
            assert(p.drop_last() == spec_plan(sender, amount, init));
            assert(p.last().amount == share(amount, d.percentage) as u64);
            assert(p.last().amount == b / k);
            assert(plan_total(p) == t_init + b / k);
        } else {
            assert(p =~= spec_plan(sender, amount, init));
            assert(plan_total(p) == t_init && b / k == 0);
        }
        assert(amount * sum_percentage(init) + b == amount * sum_percentage(dests))
            by (nonlinear_arith)
            requires
                b == amount * d.percentage,
                sum_percentage(dests) == sum_percentage(init) + d.percentage,
        ;
        assert(plan_total(p) * k == t_init * k + (b / k) * k) by (nonlinear_arith)
            requires
                plan_total(p) == t_init + b / k,
        ;
    }
}

/// The transfers of [`spec_plan`] total at most the floor of the exact
/// proportional share of the whole table: truncation per destination only
/// loses units, never gains them.
proof fn lemma_plan_total_le_scaled(sender: Handle, amount: u64, dests: Seq<FeeDestination>)
    requires
        sum_percentage(dests) <= TOTAL_BASIS_POINTS,
    ensures
        plan_total(spec_plan(sender, amount, dests)) >= 0,
        plan_total(spec_plan(sender, amount, dests)) <= (amount * sum_percentage(dests)) / (
        TOTAL_BASIS_POINTS as int),
    decreases dests.len(),
{
    lemma_sum_nonneg(dests);
    if dests.len() == 0 {
    } else {
        let init = dests.drop_last();
        let d = dests.last();
        lemma_sum_nonneg(init);
        lemma_plan_total_le_scaled(sender, amount, init);
        let p = spec_plan(sender, amount, dests);
        let a = amount * sum_percentage(init);
        let b = amount * d.percentage;
        let k = TOTAL_BASIS_POINTS as int;
        assert(a >= 0 && b >= 0 && 0 <= b / k <= amount) by (nonlinear_arith)
            requires
                amount >= 0,
                sum_percentage(init) >= 0,
                0 <= d.percentage <= k,
                a == amount * sum_percentage(init),
                b == amount * d.percentage,
                k > 0,
        ;
        assert(share(amount, d.percentage) == b / k);
        if share(amount, d.percentage) > 0 {
            assert(p.drop_last() == spec_plan(sender, amount, init));
            assert(p.last().amount == share(amount, d.percentage) as u64);
            assert(p.last().amount == b / k);
        } else {
            assert(p =~= spec_plan(sender, amount, init));
        }
        assert(a / k + b / k <= (a + b) / k) by (nonlinear_arith)
            requires
                a >= 0,
                b >= 0,
                k > 0,
        ;
        assert(a + b == amount * sum_percentage(dests)) by (nonlinear_arith)
            requires
                a == amount * sum_percentage(init),
                b == amount * d.percentage,
                sum_percentage(dests) == sum_percentage(init) + d.percentage,
        ;
    }
}

/// Whether the caller-supplied handles cover the stored table positionally:
/// handle `i` must equal stored address `i` exactly.
pub open spec fn handles_match(provided: Seq<Handle>, dests: Seq<FeeDestination>) -> bool {
    forall|i: int| 0 <= i < dests.len() ==> provided[i] == dests[i].address
}

/// `floor(amount * percentage / 10000)`, computed without overflow by
/// widening to 128 bits. The result never exceeds `amount` while the share is
/// at most 100%.
pub fn share_amount(amount: u64, percentage: u16) -> (r: u64)
    requires
        percentage <= TOTAL_BASIS_POINTS,
    ensures
        r == share(amount, percentage),
        r <= amount,
{
    proof {
        assert((amount * percentage) / (TOTAL_BASIS_POINTS as int) <= amount)
            by (nonlinear_arith)
            requires
                percentage <= TOTAL_BASIS_POINTS,
        ;
    }
    ((amount as u128 * percentage as u128) / TOTAL_BASIS_POINTS as u128) as u64
}

/// The distributor: computes the transfers that split `amount` across an
/// active configuration, against the caller-supplied destination handles.
///
/// Fails with `InsufficientDestinationAccounts` when fewer handles are
/// supplied than the table has entries, and with `DestinationMismatch` when a
/// handle differs from the stored address at the same position (matching is
/// positional, never set-based). On success the returned list is exactly
/// [`spec_plan`]: the positive floor shares in stored order. The residual of
/// at most `len - 1` units lost to truncation stays with the sender.
pub fn compute_route(
    config: &Router,
    amount: u64,
    sender: Handle,
    provided: &Vec<Handle>,
) -> (r: Result<Vec<Transfer>, ErrorCode>)
    requires
        valid_destinations(config.destinations@),
    ensures
        r is Ok <==> (provided@.len() >= config.destinations@.len() && handles_match(
            provided@,
            config.destinations@,
        )),
        r matches Ok(plan) ==> plan@ == spec_plan(sender, amount, config.destinations@),
        r == Err::<Vec<Transfer>, ErrorCode>(ErrorCode::InsufficientDestinationAccounts) <==> provided@.len()
            < config.destinations@.len(),
        r == Err::<Vec<Transfer>, ErrorCode>(ErrorCode::DestinationMismatch) <==> (provided@.len()
            >= config.destinations@.len() && !handles_match(provided@, config.destinations@)),
{
    let n = config.destinations.len();
    if provided.len() < n {
        return Err(ErrorCode::InsufficientDestinationAccounts);
    }

    let mut plan: Vec<Transfer> = Vec::new();
    let mut i: usize = 0;
    while i < n
        invariant
            n == config.destinations@.len(),
            provided@.len() >= n,
            valid_destinations(config.destinations@),
            i <= n,
            forall|j: int| 0 <= j < i ==> provided@[j] == config.destinations@[j].address,
            plan@ == spec_plan(sender, amount, config.destinations@.take(i as int)),
        decreases n - i,
    {
        if provided[i] != config.destinations[i].address {
            return Err(ErrorCode::DestinationMismatch);
        }
        proof {
            lemma_entry_le_sum(config.destinations@, i as int);
            assert(config.destinations@.take(i + 1).drop_last() =~= config.destinations@.take(
                i as int,
            ));
        }
        let dest_amount = share_amount(amount, config.destinations[i].percentage);
        if dest_amount > 0 {
            plan.push(
                Transfer { from: sender, to: config.destinations[i].address, amount: dest_amount },
            );
        }
        i = i + 1;
    }
    proof {
        assert(config.destinations@.take(config.destinations@.len() as int)
            =~= config.destinations@);
    }
    Ok(plan)
}

} // verus!

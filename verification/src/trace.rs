//! Runs of the ledger: what any interleaving of successful `purchase` and
//! `mark_usage` calls can do to one account's balance.

use vstd::prelude::*;
use crate::ledger::{Account, ApiAuthorization, mark_usage_ok, purchase_ok, units_bought};

verus! {

/// One mutating call into the ledger, as the host hands it over: the target
/// account and, for a purchase, the attached payment.
pub enum LedgerOp {
    Purchase { account: Account, value: u128 },
    MarkUsage { account: Account },
}

/// Whether an operation is a purchase targeting `a`.
pub open spec fn is_purchase_for(op: LedgerOp, a: Account) -> bool {
    match op {
        LedgerOp::Purchase { account, .. } => account == a,
        LedgerOp::MarkUsage { .. } => false,
    }
}

/// What one successful operation does to account `a`'s balance: a purchase
/// of `a` credits the bought units, a usage mark of `a` debits one unit, and
/// an operation targeting another account moves `a` not at all.
pub open spec fn op_delta(op: LedgerOp, a: Account) -> int {
    match op {
        LedgerOp::Purchase { account, value } => if account == a {
            units_bought(value)
        } else {
            0
        },
        LedgerOp::MarkUsage { account } => if account == a {
            -1
        } else {
            0
        },
    }
}

/// One successful step: the states before and after stand in the relation
/// that the operation's contract states.
pub open spec fn step_ok(pre: ApiAuthorization, op: LedgerOp, post: ApiAuthorization) -> bool {
    match op {
        LedgerOp::Purchase { account, value } => purchase_ok(pre, account, value, post),
        LedgerOp::MarkUsage { account } => mark_usage_ok(pre, account, post),
    }
}

/// A run: `states` holds one more entry than `ops`, and each operation
/// relates its neighbouring states as a successful call.
pub open spec fn run_ok(states: Seq<ApiAuthorization>, ops: Seq<LedgerOp>) -> bool {
    &&& states.len() == ops.len() + 1
    &&& forall|i: int| 0 <= i < ops.len() ==> step_ok(states[i], ops[i], states[i + 1])
}

/// The net credit a run of operations gives account `a`.
pub open spec fn delta_sum(ops: Seq<LedgerOp>, a: Account) -> int
    decreases ops.len(),
{
    if ops.len() == 0 {
        0
    } else {
        delta_sum(ops.drop_last(), a) + op_delta(ops.last(), a)
    }
}

/// Monotonic accounting: under any interleaving of successful `purchase`
/// and `mark_usage` calls, an account's balance never leaves the
/// non-negative range, each step moves it by exactly the amount the step's
/// contract states — `units_bought(value)` up for a purchase of the account,
/// one down for a usage mark of it, nothing for a step of another account —
/// and the balance at the end is the balance at the start plus the run's
/// net credit.
pub proof fn lemma_monotonic_accounting(
    states: Seq<ApiAuthorization>,
    ops: Seq<LedgerOp>,
    a: Account,
)
    requires
        run_ok(states, ops),
    ensures
        forall|i: int| 0 <= i < states.len() ==> states[i].spec_balance_of(a) >= 0,
        forall|i: int|
            0 <= i < ops.len() ==> states[i + 1].spec_balance_of(a) == states[i].spec_balance_of(a)
                + op_delta(ops[i], a),
        states.last().spec_balance_of(a) == states[0].spec_balance_of(a) + delta_sum(ops, a),
    decreases ops.len(),
{
    assert forall|i: int|
        0 <= i < ops.len() implies states[i + 1].spec_balance_of(a) == states[i].spec_balance_of(a)
        + op_delta(ops[i], a) by {
        assert(step_ok(states[i], ops[i], states[i + 1]));
    }
    if ops.len() == 0 {
        assert(states.last() == states[0]);
    } else {
        let shorter = states.drop_last();
        let fewer = ops.drop_last();
        assert forall|i: int| 0 <= i < fewer.len() implies step_ok(
            shorter[i],
            fewer[i],
            shorter[i + 1],
        ) by {
            assert(step_ok(states[i], ops[i], states[i + 1]));
        }
        lemma_monotonic_accounting(shorter, fewer, a);
        assert(states.last().spec_balance_of(a) == states[ops.len() as int - 1].spec_balance_of(a)
            + op_delta(ops.last(), a)) by {
            assert(step_ok(states[ops.len() as int - 1], ops[ops.len() as int - 1], states[ops.len() as int]));
        }
        assert(shorter.last() == states[ops.len() as int - 1]);
    }
}

/// An account that no purchase ever targets reads zero throughout: from a
/// zero balance, a step of another account leaves it untouched, and a usage
/// mark of the account itself cannot succeed there.
pub proof fn lemma_untargeted_account_stays_zero(
    states: Seq<ApiAuthorization>,
    ops: Seq<LedgerOp>,
    a: Account,
)
    requires
        run_ok(states, ops),
        states[0].spec_balance_of(a) == 0,
        forall|i: int| 0 <= i < ops.len() ==> !is_purchase_for(ops[i], a),
    ensures
        forall|i: int| 0 <= i < states.len() ==> states[i].spec_balance_of(a) == 0,
    decreases ops.len(),
{
    if ops.len() > 0 {
        let shorter = states.drop_last();
        let fewer = ops.drop_last();
        assert forall|i: int| 0 <= i < fewer.len() implies step_ok(
            shorter[i],
            fewer[i],
            shorter[i + 1],
        ) by {
            assert(step_ok(states[i], ops[i], states[i + 1]));
        }
        lemma_untargeted_account_stays_zero(shorter, fewer, a);
        assert(shorter[ops.len() as int - 1] == states[ops.len() as int - 1]);
        assert(step_ok(states[ops.len() as int - 1], ops[ops.len() as int - 1], states[ops.len() as int]));
        // A usage mark of `a` would need a positive balance, which `a` does
        // not have; every other operation leaves `a`'s balance where it was.
        assert(states[ops.len() as int].spec_balance_of(a) == 0);
        assert forall|i: int| 0 <= i < states.len() implies states[i].spec_balance_of(a) == 0 by {
            if i < states.len() - 1 {
                assert(shorter[i] == states[i]);
            }
        }
    }
}

} // verus!

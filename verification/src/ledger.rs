//! The ledger itself: a mapping from account to remaining access units,
//! mutated by `purchase` and `mark_usage` and read by `balance_of`.

use vstd::prelude::*;

verus! {

/// Price of one access unit, in the smallest monetary unit.
pub const PRICE: u128 = 2_180_330_000_000_000;

/// Remaining access units of one account.
pub type UnitCount = u64;

/// How many whole access units a payment of `value` buys: integer division,
/// truncating.
pub open spec fn units_bought(value: u128) -> int {
    value as int / PRICE as int
}

/// A caller identity as the host execution environment hands it over:
/// an opaque 160-bit value, split into its high 32 and low 128 bits.
#[derive(Clone, Copy, Debug, Hash, PartialEq, Eq, Structural)]
pub struct Account {
    pub hi: u32,
    pub lo: u128,
}

/// Why a call was rejected. Every rejection aborts the whole call: the
/// ledger is left exactly as it was.
#[derive(Clone, Copy, Debug, PartialEq, Eq, Structural)]
pub enum LedgerError {
    /// The payment attached to `purchase` buys no whole access unit.
    InsufficientPayment,
    /// Crediting the purchased units would leave the representable range.
    Overflow,
    /// `mark_usage` was called on an account whose balance is zero.
    NoRemainingAccess,
    /// Defensive guard on the decrement in `mark_usage`; the zero check in
    /// front of it keeps this one from ever being reported.
    Underflow,
}

/// The record a successful `purchase` hands to the host for its event log.
#[derive(Clone, Copy, Debug, PartialEq, Eq, Structural)]
pub struct PurchaseEvent {
    pub account: Account,
    pub new_balance: UnitCount,
}

/// No account owns two entries.
spec fn unique_accounts(s: Seq<(Account, UnitCount)>) -> bool {
    forall|i: int, j: int| 0 <= i < j < s.len() ==> s[i].0 != s[j].0
}

/// The balance an entry list records for `a`: the value of its entry, zero
/// where none stands.
spec fn seq_balance(s: Seq<(Account, UnitCount)>, a: Account) -> UnitCount
    decreases s.len(),
{
    if s.len() == 0 {
        0
    } else if s.last().0 == a {
        s.last().1
    } else {
        seq_balance(s.drop_last(), a)
    }
}

/// Whether an entry list holds an entry for `a` (a zero-valued one counts).
spec fn seq_has(s: Seq<(Account, UnitCount)>, a: Account) -> bool
    decreases s.len(),
{
    if s.len() == 0 {
        false
    } else {
        s.last().0 == a || seq_has(s.drop_last(), a)
    }
}

/// The access ledger: it exclusively owns the account-to-balance mapping;
/// all reads and writes go through its three operations.
pub struct ApiAuthorization {
    entries: Vec<(Account, UnitCount)>,
}

/// How a successful `purchase` with payment `value` relates the ledger
/// before the call to the ledger after it: exactly `units_bought(value)`
/// units — at least one, and no more than the balance can take — are
/// credited to `caller`, no other account moves, `caller` owns an entry
/// afterwards, and no other account's entry appears or disappears.
pub open spec fn purchase_ok(
    pre: ApiAuthorization,
    caller: Account,
    value: u128,
    post: ApiAuthorization,
) -> bool {
    &&& units_bought(value) >= 1
    &&& pre.spec_balance_of(caller) + units_bought(value) <= u64::MAX
    &&& post.spec_balance_of(caller) == pre.spec_balance_of(caller) + units_bought(value)
    &&& forall|b: Account| b != caller ==> post.spec_balance_of(b) == pre.spec_balance_of(b)
    &&& post.spec_has_entry(caller)
    &&& forall|b: Account| b != caller ==> post.spec_has_entry(b) == pre.spec_has_entry(b)
}

/// Which error a rejected `purchase` reports: `InsufficientPayment` exactly
/// where the payment buys no whole unit, `Overflow` exactly where crediting
/// the bought units would push the balance past the representable range.
pub open spec fn purchase_rejects(
    pre: ApiAuthorization,
    caller: Account,
    value: u128,
    e: LedgerError,
) -> bool {
    if units_bought(value) < 1 {
        e == LedgerError::InsufficientPayment
    } else {
        &&& pre.spec_balance_of(caller) + units_bought(value) > u64::MAX
        &&& e == LedgerError::Overflow
    }
}

/// How a successful `mark_usage` relates the ledger before the call to the
/// ledger after it: exactly one unit leaves `account` — which held at least
/// one — no other account moves, and the entry set stays as it was (a
/// balance debited to zero keeps its zero-valued entry).
pub open spec fn mark_usage_ok(
    pre: ApiAuthorization,
    account: Account,
    post: ApiAuthorization,
) -> bool {
    &&& pre.spec_balance_of(account) >= 1
    &&& post.spec_balance_of(account) == pre.spec_balance_of(account) - 1
    &&& forall|b: Account| b != account ==> post.spec_balance_of(b) == pre.spec_balance_of(b)
    &&& forall|b: Account| post.spec_has_entry(b) == pre.spec_has_entry(b)
}

impl ApiAuthorization {
    /// Each account has at most one entry, so a lookup is unambiguous.
    #[verifier::type_invariant]
    spec fn wf(self) -> bool {
        unique_accounts(self.entries@)
    }

    /// The balance the ledger records for `a`: zero where it never saw `a`.
    pub closed spec fn spec_balance_of(self, a: Account) -> UnitCount {
        seq_balance(self.entries@, a)
    }

    /// Whether the ledger holds an entry for `a`. Entries are only ever
    /// created, never removed: a balance debited to zero leaves a
    /// zero-valued entry behind.
    pub closed spec fn spec_has_entry(self, a: Account) -> bool {
        seq_has(self.entries@, a)
    }

    /// A fresh ledger, as deployment creates it: every account implicitly
    /// at zero, no entry stored.
    pub fn new() -> (l: Self)
        ensures
            forall|a: Account| l.spec_balance_of(a) == 0,
            forall|a: Account| !l.spec_has_entry(a),
    {
        let l = ApiAuthorization { entries: Vec::new() };
        proof {
            assert forall|a: Account| l.spec_balance_of(a) == 0 && !l.spec_has_entry(a) by {
                assert(l.entries@.len() == 0);
            }
        }
        l
    }

    /// Index of the entry for `a`, where one stands.
    fn find(&self, a: Account) -> (r: Option<usize>)
        ensures
            match r {
                Some(i) => i < self.entries@.len() && self.entries@[i as int].0 == a,
                None => forall|k: int| 0 <= k < self.entries@.len() ==> self.entries@[k].0 != a,
            },
    {
        let n = self.entries.len();
        let mut i: usize = 0;
        while i < n
            invariant
                n == self.entries@.len(),
                i <= n,
                forall|k: int| 0 <= k < i ==> self.entries@[k].0 != a,
            decreases n - i,
        {
            if self.entries[i].0 == a {
                return Some(i);
            }
            i = i + 1;
        }
        None
    }

    /// The remaining access units of `account`, zero for one the ledger
    /// never saw. Never fails, never mutates state: the result depends on
    /// the ledger state alone.
    pub fn balance_of(&self, account: Account) -> (r: UnitCount)
        ensures
            r == self.spec_balance_of(account),
    {
        proof {
            use_type_invariant(&*self);
        }
        match self.find(account) {
            Some(i) => {
                proof {
                    lemma_seq_balance_at(self.entries@, account, i as int);
                }
                self.entries[i].1
            },
            None => {
                proof {
                    lemma_seq_balance_absent(self.entries@, account);
                }
                0
            },
        }
    }

    /// Credits the caller with one access unit per whole `PRICE` contained
    /// in the attached payment `value` and reports the raised balance,
    /// together with the `PurchaseEvent` the host is to log. Rejects the
    /// call — leaving the ledger exactly as it was, with no event — where
    /// the payment buys no whole unit or the credit would overflow.
    pub fn purchase(&mut self, caller: Account, value: u128) -> (r: Result<
        (UnitCount, PurchaseEvent),
        LedgerError,
    >)
        ensures
            match r {
                Ok(p) => {
                    &&& purchase_ok(*old(self), caller, value, *final(self))
                    &&& p.0 == final(self).spec_balance_of(caller)
                    &&& p.1 == (PurchaseEvent { account: caller, new_balance: p.0 })
                },
                Err(e) => {
                    &&& *final(self) == *old(self)
                    &&& purchase_rejects(*old(self), caller, value, e)
                },
            },
    {
        proof {
            use_type_invariant(&*self);
        }
        // The divisor is a compile-time constant and cannot be zero, but the
        // division is still the checked form, never assumed safe.
        let purchased = match value.checked_div(PRICE) {
            Some(q) => q,
            None => {
                return Err(LedgerError::InsufficientPayment);
            },
        };
        if purchased == 0 {
            return Err(LedgerError::InsufficientPayment);
        }
        let idx = self.find(caller);
        let current: UnitCount = match idx {
            Some(i) => self.entries[i].1,
            None => 0,
        };
        proof {
            match idx {
                Some(i) => lemma_seq_balance_at(self.entries@, caller, i as int),
                None => lemma_seq_balance_absent(self.entries@, caller),
            }
        }
        // Validate the credit before any write: on failure nothing may have
        // been mutated.
        let total = match (current as u128).checked_add(purchased) {
            Some(t) => t,
            None => {
                return Err(LedgerError::Overflow);
            },
        };
        if total > u64::MAX as u128 {
            return Err(LedgerError::Overflow);
        }
        let updated: UnitCount = total as u64;
        let ghost pre = *self;
        let mut entries: Vec<(Account, UnitCount)> = Vec::new();
        core::mem::swap(&mut entries, &mut self.entries);
        let ghost s0 = entries@;
        match idx {
            Some(i) => {
                proof {
                    lemma_seq_balance_update(s0, i as int, caller, updated, caller);
                }
                entries[i] = (caller, updated);
                core::mem::swap(&mut entries, &mut self.entries);
                proof {
                    assert forall|b: Account| b != caller implies self.spec_balance_of(b)
                        == pre.spec_balance_of(b) && self.spec_has_entry(b) == pre.spec_has_entry(
                        b,
                    ) by {
                        lemma_seq_balance_update(s0, i as int, caller, updated, b);
                    }
                }
            },
            None => {
                proof {
                    lemma_seq_balance_push(s0, caller, updated, caller);
                }
                entries.push((caller, updated));
                core::mem::swap(&mut entries, &mut self.entries);
                proof {
                    assert forall|b: Account| b != caller implies self.spec_balance_of(b)
                        == pre.spec_balance_of(b) && self.spec_has_entry(b) == pre.spec_has_entry(
                        b,
                    ) by {
                        lemma_seq_balance_push(s0, caller, updated, b);
                    }
                }
            },
        }
        Ok((updated, PurchaseEvent { account: caller, new_balance: updated }))
    }

    /// Debits exactly one access unit from `account` and reports the
    /// remaining count. Rejects the call — leaving the ledger exactly as it
    /// was — where no access remains; the decrement itself is the checked
    /// form, whose defensive `Underflow` arm the zero check keeps
    /// unreachable.
    pub fn mark_usage(&mut self, account: Account) -> (r: Result<UnitCount, LedgerError>)
        ensures
            match r {
                Ok(bal) => {
                    &&& mark_usage_ok(*old(self), account, *final(self))
                    &&& bal == final(self).spec_balance_of(account)
                },
                Err(e) => {
                    &&& *final(self) == *old(self)
                    &&& old(self).spec_balance_of(account) == 0
                    &&& e == LedgerError::NoRemainingAccess
                },
            },
    {
        proof {
            use_type_invariant(&*self);
        }
        match self.find(account) {
            None => {
                proof {
                    lemma_seq_balance_absent(self.entries@, account);
                }
                Err(LedgerError::NoRemainingAccess)
            },
            Some(i) => {
                let current = self.entries[i].1;
                proof {
                    lemma_seq_balance_at(self.entries@, account, i as int);
                }
                if current == 0 {
                    return Err(LedgerError::NoRemainingAccess);
                }
                let updated = match current.checked_sub(1) {
                    Some(u) => u,
                    None => {
                        return Err(LedgerError::Underflow);
                    },
                };
                let ghost pre = *self;
                let mut entries: Vec<(Account, UnitCount)> = Vec::new();
                core::mem::swap(&mut entries, &mut self.entries);
                let ghost s0 = entries@;
                proof {
                    lemma_seq_balance_update(s0, i as int, account, updated, account);
                }
                entries[i] = (account, updated);
                core::mem::swap(&mut entries, &mut self.entries);
                proof {
                    assert forall|b: Account| b != account implies self.spec_balance_of(b)
                        == pre.spec_balance_of(b) && self.spec_has_entry(b) == pre.spec_has_entry(
                        b,
                    ) by {
                        lemma_seq_balance_update(s0, i as int, account, updated, b);
                    }
                    assert(self.spec_has_entry(account) == pre.spec_has_entry(account)) by {
                        lemma_seq_balance_update(s0, i as int, account, updated, account);
                    }
                }
                Ok(updated)
            },
        }
    }
}

/// Reads are idempotent: `balance_of` reports `spec_balance_of` of the
/// ledger state alone, so any two results read from the same state — two
/// calls with no mutation between them — are equal.
pub proof fn lemma_read_idempotent(l: ApiAuthorization, a: Account, first: UnitCount, second: UnitCount)
    requires
        first == l.spec_balance_of(a),
        second == l.spec_balance_of(a),
    ensures
        first == second,
{
}

/// Where `a` owns the entry at `i`, the recorded balance is that entry's
/// value, and the ledger holds an entry for `a`.
proof fn lemma_seq_balance_at(s: Seq<(Account, UnitCount)>, a: Account, i: int)
    requires
        unique_accounts(s),
        0 <= i < s.len(),
        s[i].0 == a,
    ensures
        seq_balance(s, a) == s[i].1,
        seq_has(s, a),
    decreases s.len(),
{
    if i < s.len() - 1 {
        assert(s.last().0 != a);
        lemma_unique_drop_last(s);
        assert(s.drop_last()[i] == s[i]);
        lemma_seq_balance_at(s.drop_last(), a, i);
    }
}

/// Where no entry carries `a`, the recorded balance is zero.
proof fn lemma_seq_balance_absent(s: Seq<(Account, UnitCount)>, a: Account)
    requires
        forall|k: int| 0 <= k < s.len() ==> s[k].0 != a,
    ensures
        seq_balance(s, a) == 0,
        !seq_has(s, a),
    decreases s.len(),
{
    if s.len() > 0 {
        assert forall|k: int| 0 <= k < s.drop_last().len() implies s.drop_last()[k].0 != a by {
            assert(s.drop_last()[k] == s[k]);
        }
        lemma_seq_balance_absent(s.drop_last(), a);
    }
}

/// Overwriting the entry that `a` owns at `i` moves `a`'s recorded balance
/// to the new value and nothing else: every other account keeps its balance,
/// the entry set stays as it was, and uniqueness survives.
proof fn lemma_seq_balance_update(
    s: Seq<(Account, UnitCount)>,
    i: int,
    a: Account,
    v: UnitCount,
    b: Account,
)
    requires
        unique_accounts(s),
        0 <= i < s.len(),
        s[i].0 == a,
    ensures
        unique_accounts(s.update(i, (a, v))),
        seq_balance(s.update(i, (a, v)), b) == (if b == a {
            v
        } else {
            seq_balance(s, b)
        }),
        seq_has(s.update(i, (a, v)), b) == seq_has(s, b),
    decreases s.len(),
{
    let t = s.update(i, (a, v));
    assert forall|p: int, q: int| 0 <= p < q < t.len() implies t[p].0 != t[q].0 by {
        assert(t[p].0 == s[p].0);
        assert(t[q].0 == s[q].0);
    }
    if i == s.len() - 1 {
        assert(t.last() == (a, v));
        assert(t.drop_last() =~= s.drop_last());
        if b != a {
            assert(s.last().0 == a);
        }
    } else {
        assert(t.last() == s.last());
        assert(t.drop_last() =~= s.drop_last().update(i, (a, v)));
        lemma_unique_drop_last(s);
        assert(s.drop_last()[i] == s[i]);
        lemma_seq_balance_update(s.drop_last(), i, a, v, b);
        if s.last().0 == b {
            // `a` stands strictly before the last entry, so `b`, the last
            // entry's owner, is another account and reads the last value on
            // both sides.
            assert(b != a);
        }
    }
}

/// Appending an entry for an account `a` that owns none yet records `v` for
/// `a` and nothing else: every other account keeps its balance and its
/// entry, and uniqueness survives.
proof fn lemma_seq_balance_push(
    s: Seq<(Account, UnitCount)>,
    a: Account,
    v: UnitCount,
    b: Account,
)
    requires
        unique_accounts(s),
        forall|k: int| 0 <= k < s.len() ==> s[k].0 != a,
    ensures
        unique_accounts(s.push((a, v))),
        seq_balance(s.push((a, v)), b) == (if b == a {
            v
        } else {
            seq_balance(s, b)
        }),
        seq_has(s.push((a, v)), b) == (b == a || seq_has(s, b)),
{
    let t = s.push((a, v));
    assert(t.drop_last() =~= s);
    assert(t.last() == (a, v));
    assert forall|p: int, q: int| 0 <= p < q < t.len() implies t[p].0 != t[q].0 by {
        assert(t[p].0 == s[p].0);
        if q < s.len() {
            assert(t[q].0 == s[q].0);
        }
    }
}

/// Uniqueness survives dropping the last entry.
proof fn lemma_unique_drop_last(s: Seq<(Account, UnitCount)>)
    requires
        unique_accounts(s),
        s.len() > 0,
    ensures
        unique_accounts(s.drop_last()),
{
    assert forall|i: int, j: int|
        0 <= i < j < s.drop_last().len() implies s.drop_last()[i].0 != s.drop_last()[j].0 by {
        assert(s.drop_last()[i] == s[i]);
        assert(s.drop_last()[j] == s[j]);
    }
}

} // verus!


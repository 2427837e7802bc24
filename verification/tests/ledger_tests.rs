use api_authorization::ledger::{Account, ApiAuthorization, LedgerError, PurchaseEvent, PRICE};

#[test]
fn fresh_ledger_reads_zero() {
    let ledger = ApiAuthorization::new();
    assert_eq!(ledger.balance_of(Account { hi: 0, lo: 0 }), 0);
    assert_eq!(ledger.balance_of(Account { hi: 7, lo: 1234 }), 0);
    assert_eq!(ledger.balance_of(Account { hi: u32::MAX, lo: u128::MAX }), 0);
}

#[test]
fn purchase_exact_price_credits_one_unit() {
    let mut ledger = ApiAuthorization::new();
    let caller = Account { hi: 1, lo: 11 };
    let r = ledger.purchase(caller, PRICE);
    assert_eq!(
        r,
        Ok((1, PurchaseEvent { account: caller, new_balance: 1 }))
    );
    assert_eq!(ledger.balance_of(caller), 1);
}

#[test]
fn purchase_truncates_to_whole_units() {
    let mut ledger = ApiAuthorization::new();
    let caller = Account { hi: 1, lo: 12 };
    let r = ledger.purchase(caller, 3 * PRICE + (PRICE - 1));
    assert_eq!(
        r,
        Ok((3, PurchaseEvent { account: caller, new_balance: 3 }))
    );
    assert_eq!(ledger.balance_of(caller), 3);
}

#[test]
fn purchase_accumulates_over_calls() {
    let mut ledger = ApiAuthorization::new();
    let caller = Account { hi: 2, lo: 21 };
    assert_eq!(ledger.purchase(caller, 2 * PRICE).unwrap().0, 2);
    assert_eq!(ledger.purchase(caller, 5 * PRICE).unwrap().0, 7);
    assert_eq!(ledger.balance_of(caller), 7);
}

#[test]
fn purchase_below_price_rejected() {
    let mut ledger = ApiAuthorization::new();
    let caller = Account { hi: 3, lo: 31 };
    let r = ledger.purchase(caller, PRICE - 1);
    assert_eq!(r, Err(LedgerError::InsufficientPayment));
    assert_eq!(ledger.balance_of(caller), 0);
}

#[test]
fn purchase_zero_value_rejected() {
    let mut ledger = ApiAuthorization::new();
    let caller = Account { hi: 3, lo: 32 };
    assert_eq!(ledger.purchase(caller, 0), Err(LedgerError::InsufficientPayment));
    assert_eq!(ledger.balance_of(caller), 0);
}

#[test]
fn purchase_overflow_rejected() {
    let mut ledger = ApiAuthorization::new();
    let caller = Account { hi: 4, lo: 41 };
    assert_eq!(ledger.purchase(caller, 2 * PRICE).unwrap().0, 2);
    // u128::MAX / PRICE is far beyond what a u64 balance can take.
    let r = ledger.purchase(caller, u128::MAX);
    assert_eq!(r, Err(LedgerError::Overflow));
    assert_eq!(ledger.balance_of(caller), 2);
}

#[test]
fn mark_usage_debits_exactly_one() {
    let mut ledger = ApiAuthorization::new();
    let caller = Account { hi: 5, lo: 51 };
    ledger.purchase(caller, 2 * PRICE).unwrap();
    assert_eq!(ledger.mark_usage(caller), Ok(1));
    assert_eq!(ledger.balance_of(caller), 1);
}

#[test]
fn mark_usage_on_zero_rejected() {
    let mut ledger = ApiAuthorization::new();
    let caller = Account { hi: 5, lo: 52 };
    assert_eq!(ledger.mark_usage(caller), Err(LedgerError::NoRemainingAccess));
    assert_eq!(ledger.balance_of(caller), 0);
}

#[test]
fn balance_read_twice_unchanged() {
    let mut ledger = ApiAuthorization::new();
    let caller = Account { hi: 6, lo: 61 };
    ledger.purchase(caller, 4 * PRICE).unwrap();
    let first = ledger.balance_of(caller);
    let second = ledger.balance_of(caller);
    assert_eq!(first, second);
    assert_eq!(first, 4);
}

#[test]
fn accounts_do_not_interfere() {
    let mut ledger = ApiAuthorization::new();
    let alpha = Account { hi: 7, lo: 71 };
    let beta = Account { hi: 7, lo: 72 };
    assert_eq!(ledger.purchase(alpha, 3 * PRICE).unwrap().0, 3);
    assert_eq!(ledger.purchase(beta, PRICE).unwrap().0, 1);
    assert_eq!(ledger.mark_usage(alpha), Ok(2));
    assert_eq!(ledger.purchase(beta, 2 * PRICE).unwrap().0, 3);
    assert_eq!(ledger.mark_usage(beta), Ok(2));
    assert_eq!(ledger.mark_usage(alpha), Ok(1));
    assert_eq!(ledger.balance_of(alpha), 1);
    assert_eq!(ledger.balance_of(beta), 2);
}

#[test]
fn end_to_end_two_units_then_exhaustion() {
    let mut ledger = ApiAuthorization::new();
    let caller = Account { hi: 8, lo: 81 };
    let r = ledger.purchase(caller, 4_360_660_000_000_000);
    assert_eq!(
        r,
        Ok((2, PurchaseEvent { account: caller, new_balance: 2 }))
    );
    assert_eq!(ledger.mark_usage(caller), Ok(1));
    assert_eq!(ledger.mark_usage(caller), Ok(0));
    assert_eq!(ledger.mark_usage(caller), Err(LedgerError::NoRemainingAccess));
    assert_eq!(ledger.balance_of(caller), 0);
}

#[test]
fn end_to_end_one_smallest_unit_short() {
    let mut ledger = ApiAuthorization::new();
    let caller = Account { hi: 8, lo: 82 };
    let r = ledger.purchase(caller, 2_180_330_000_000_000 - 1);
    assert_eq!(r, Err(LedgerError::InsufficientPayment));
    assert_eq!(ledger.balance_of(caller), 0);
}

use rain_helpers::identity::Identity;
use rain_helpers::interest::{checked_timestamp, compute_dynamic_interest};
use rain_helpers::state::{Loan, LoanKind, LoanStatus};

fn loan(status: LoanStatus, interest: u64, duration: u64, created_at: u64) -> Loan {
    Loan {
        kind: LoanKind::Loan,
        status,
        borrower: Identity::new([1; 32]),
        lender: Identity::new([2; 32]),
        pool: Identity::new([3; 32]),
        mint: Identity::new([4; 32]),
        currency: Identity::new([5; 32]),
        is_custom: false,
        is_frozen: false,
        price: 0,
        interest,
        amount: 500_000,
        duration,
        collection: 0,
        liquidation: 0,
        padding: [0; 20],
        padding1: [0; 20],
        padding3: [0; 2],
        created_at,
        expired_at: 0,
        repaid_at: 0,
        sold_at: 0,
        liquidated_at: 0,
    }
}

#[test]
fn half_the_interest_at_half_the_duration() {
    let l = loan(LoanStatus::Ongoing, 50_000, 1_000_000, 1_700_000_000);
    assert_eq!(compute_dynamic_interest(&l, 1_700_500_000), 25_000);
}

#[test]
fn accrual_is_linear_and_rounds_down() {
    let l = loan(LoanStatus::Ongoing, 10, 3, 100);
    assert_eq!(compute_dynamic_interest(&l, 100), 0);
    assert_eq!(compute_dynamic_interest(&l, 101), 3);
    assert_eq!(compute_dynamic_interest(&l, 102), 6);
    assert_eq!(compute_dynamic_interest(&l, 103), 10);
    let l = loan(LoanStatus::Ongoing, 1, 1_000, 0);
    assert_eq!(compute_dynamic_interest(&l, 999), 0);
    assert_eq!(compute_dynamic_interest(&l, 1_000), 1);
}

#[test]
fn nothing_accrues_at_creation() {
    let l = loan(LoanStatus::Ongoing, 50_000, 1_000_000, 1_700_000_000);
    assert_eq!(compute_dynamic_interest(&l, 1_700_000_000), 0);
}

#[test]
fn nothing_accrues_before_creation() {
    let l = loan(LoanStatus::Ongoing, 50_000, 1_000_000, 1_700_000_000);
    assert_eq!(compute_dynamic_interest(&l, 1_699_999_999), 0);
    assert_eq!(compute_dynamic_interest(&l, 0), 0);
    assert_eq!(compute_dynamic_interest(&l, -1), 0);
    assert_eq!(compute_dynamic_interest(&l, i64::MIN), 0);
}

#[test]
fn accrual_stops_at_the_duration() {
    let l = loan(LoanStatus::Ongoing, 50_000, 1_000_000, 1_700_000_000);
    assert_eq!(compute_dynamic_interest(&l, 1_700_999_999), 49_999);
    assert_eq!(compute_dynamic_interest(&l, 1_701_000_000), 50_000);
    assert_eq!(compute_dynamic_interest(&l, 1_701_000_001), 50_000);
    assert_eq!(compute_dynamic_interest(&l, i64::MAX), 50_000);
}

#[test]
fn accrual_never_falls() {
    let l = loan(LoanStatus::Ongoing, 777, 97, 1_000);
    let mut last = 0;
    for now in 990..1_200 {
        let accrued = compute_dynamic_interest(&l, now);
        assert!(accrued >= last);
        assert!(accrued <= 777);
        last = accrued;
    }
    assert_eq!(last, 777);
}

#[test]
fn closed_loans_accrue_nothing() {
    for status in [LoanStatus::Repaid, LoanStatus::Liquidated, LoanStatus::Sold] {
        let l = loan(status, 50_000, 1_000_000, 1_700_000_000);
        assert_eq!(compute_dynamic_interest(&l, 1_700_500_000), 0);
        assert_eq!(compute_dynamic_interest(&l, i64::MAX), 0);
    }
}

#[test]
fn a_loan_without_duration_accrues_nothing() {
    let l = loan(LoanStatus::Ongoing, 50_000, 0, 1_700_000_000);
    assert_eq!(compute_dynamic_interest(&l, 1_700_500_000), 0);
}

#[test]
fn large_quantities_do_not_overflow() {
    let l = loan(LoanStatus::Ongoing, u64::MAX, u64::MAX, 0);
    assert_eq!(compute_dynamic_interest(&l, i64::MAX), i64::MAX as u64);
    let l = loan(LoanStatus::Ongoing, u64::MAX, 2, 0);
    assert_eq!(compute_dynamic_interest(&l, 1), u64::MAX / 2);
    assert_eq!(compute_dynamic_interest(&l, 2), u64::MAX);
    let l = loan(LoanStatus::Ongoing, u64::MAX, 1 << 62, u64::MAX);
    assert_eq!(compute_dynamic_interest(&l, i64::MAX), 0);
}

#[test]
fn timestamps_are_converted_with_a_check() {
    assert_eq!(checked_timestamp(0), Some(0));
    assert_eq!(checked_timestamp(1_700_000_000), Some(1_700_000_000));
    assert_eq!(checked_timestamp(i64::MAX as u64), Some(i64::MAX));
    assert_eq!(checked_timestamp(i64::MAX as u64 + 1), None);
    assert_eq!(checked_timestamp(u64::MAX), None);
}

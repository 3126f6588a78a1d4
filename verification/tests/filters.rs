use rain_helpers::filter::{
    accepts_all, bytes_at, loan_filters, ongoing_loan_filters, pool_filters, ByteFilter,
    LOAN_CURRENCY_OFFSET, LOAN_STATUS_OFFSET, POOL_CURRENCY_OFFSET, TAG_OFFSET,
};
use rain_helpers::identity::Identity;
use rain_helpers::state::{Loan, LoanKind, LoanStatus, Pool};

fn id(byte: u8) -> Identity {
    Identity::new([byte; 32])
}

fn pool(currency: u8) -> Pool {
    Pool {
        bump: 1,
        owner: id(1),
        currency: id(currency),
        padding: [0; 64],
        padding1: [0; 3],
        total_amount: 1,
        borrowed_amount: 2,
        available_amount: 3,
        usable_amount: 4,
    }
}

fn loan(currency: u8, status: LoanStatus) -> Loan {
    Loan {
        kind: LoanKind::Loan,
        status,
        borrower: id(1),
        lender: id(2),
        pool: id(3),
        mint: id(4),
        currency: id(currency),
        is_custom: false,
        is_frozen: false,
        price: 0,
        interest: 0,
        amount: 0,
        duration: 0,
        collection: 0,
        liquidation: 0,
        padding: [0; 20],
        padding1: [0; 20],
        padding3: [0; 2],
        created_at: 0,
        expired_at: 0,
        repaid_at: 0,
        sold_at: 0,
        liquidated_at: 0,
    }
}

#[test]
fn offsets() {
    assert_eq!(TAG_OFFSET, 0);
    assert_eq!(POOL_CURRENCY_OFFSET, 41);
    assert_eq!(LOAN_CURRENCY_OFFSET, 138);
    assert_eq!(LOAN_STATUS_OFFSET, 9);
}

#[test]
fn pool_filters_ask_for_tag_and_currency() {
    assert_eq!(
        pool_filters(&id(7)),
        vec![
            ByteFilter { offset: 0, bytes: vec![241, 154, 109, 4, 17, 177, 109, 188] },
            ByteFilter { offset: 41, bytes: vec![7; 32] },
        ]
    );
}

#[test]
fn loan_filters_ask_for_tag_and_currency() {
    assert_eq!(
        loan_filters(&id(7)),
        vec![
            ByteFilter { offset: 0, bytes: vec![20, 195, 70, 117, 165, 227, 182, 1] },
            ByteFilter { offset: 138, bytes: vec![7; 32] },
        ]
    );
}

#[test]
fn ongoing_loan_filters_ask_for_the_status_too() {
    assert_eq!(
        ongoing_loan_filters(&id(7)),
        vec![
            ByteFilter { offset: 0, bytes: vec![20, 195, 70, 117, 165, 227, 182, 1] },
            ByteFilter { offset: 138, bytes: vec![7; 32] },
            ByteFilter { offset: 9, bytes: vec![1] },
        ]
    );
}

#[test]
fn pool_filters_select_by_currency() {
    let filters = pool_filters(&id(7));
    assert!(accepts_all(&filters, &pool(7).encode()));
    assert!(!accepts_all(&filters, &pool(8).encode()));
    assert!(!accepts_all(&filters, &loan(7, LoanStatus::Ongoing).encode()));
    let mut other_tag = pool(7).encode();
    other_tag[0] = 0;
    assert!(!accepts_all(&filters, &other_tag));
}

#[test]
fn loan_filters_select_by_currency() {
    let filters = loan_filters(&id(7));
    for status in
        [LoanStatus::Ongoing, LoanStatus::Repaid, LoanStatus::Liquidated, LoanStatus::Sold]
    {
        assert!(accepts_all(&filters, &loan(7, status).encode()));
        assert!(!accepts_all(&filters, &loan(8, status).encode()));
    }
    assert!(!accepts_all(&filters, &pool(7).encode()));
}

#[test]
fn ongoing_loan_filters_select_by_status() {
    let filters = ongoing_loan_filters(&id(7));
    assert!(accepts_all(&filters, &loan(7, LoanStatus::Ongoing).encode()));
    assert!(!accepts_all(&filters, &loan(8, LoanStatus::Ongoing).encode()));
    for status in [LoanStatus::Repaid, LoanStatus::Liquidated, LoanStatus::Sold] {
        assert!(!accepts_all(&filters, &loan(7, status).encode()));
    }
}

#[test]
fn a_filter_matches_bytes_at_its_offset() {
    let filter = bytes_at(2, &[3, 4]);
    assert_eq!(filter, ByteFilter { offset: 2, bytes: vec![3, 4] });
    assert!(filter.accepts(&[1, 2, 3, 4]));
    assert!(filter.accepts(&[1, 2, 3, 4, 5]));
    assert!(!filter.accepts(&[1, 2, 3, 5]));
    assert!(!filter.accepts(&[1, 2, 3]));
    assert!(!filter.accepts(&[]));
    assert!(bytes_at(4, &[]).accepts(&[1, 2, 3, 4]));
    assert!(!bytes_at(5, &[]).accepts(&[1, 2, 3, 4]));
    assert!(!bytes_at(usize::MAX, &[1]).accepts(&[1, 2, 3, 4]));
    assert!(accepts_all(&vec![], &[1]));
}

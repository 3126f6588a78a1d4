use rain_helpers::aggregate::{tally_borrow, tally_supply};
use rain_helpers::batch::{decode_loans, decode_pools};
use rain_helpers::error::{DecodeError, RainError};
use rain_helpers::identity::Identity;
use rain_helpers::state::{Loan, LoanKind, LoanStatus, Pool};
use rain_helpers::totals::{Entry, UserTotals};
use rain_helpers::{
    borrowers_of, fetch_rain_borrowers, fetch_rain_pools, suppliers_of, RainBorrower, RainSupplier,
};

const CREATED: u64 = 1_700_000_000;

fn id(byte: u8) -> Identity {
    Identity::new([byte; 32])
}

fn pool(owner: u8, total_amount: u64) -> Pool {
    Pool {
        bump: 255,
        owner: id(owner),
        currency: id(200),
        padding: [0; 64],
        padding1: [0; 3],
        total_amount,
        borrowed_amount: 0,
        available_amount: total_amount,
        usable_amount: total_amount,
    }
}

fn loan(borrower: u8, lender: u8, status: LoanStatus, amount: u64, interest: u64) -> Loan {
    Loan {
        kind: LoanKind::Loan,
        status,
        borrower: id(borrower),
        lender: id(lender),
        pool: id(100),
        mint: id(101),
        currency: id(200),
        is_custom: false,
        is_frozen: false,
        price: 0,
        interest,
        amount,
        duration: 1_000_000,
        collection: 0,
        liquidation: 0,
        padding: [0; 20],
        padding1: [0; 20],
        padding3: [0; 2],
        created_at: CREATED,
        expired_at: CREATED + 1_000_000,
        repaid_at: 0,
        sold_at: 0,
        liquidated_at: 0,
    }
}

fn sorted_supply(mut rows: Vec<RainSupplier>) -> Vec<(u8, u64)> {
    rows.sort_by_key(|row| row.user.bytes);
    rows.iter().map(|row| (row.user.bytes[0], row.supply)).collect()
}

fn sorted_borrow(mut rows: Vec<RainBorrower>) -> Vec<(u8, u64)> {
    rows.sort_by_key(|row| row.user.bytes);
    rows.iter().map(|row| (row.user.bytes[0], row.borrow)).collect()
}

#[test]
fn supply_is_deposit_plus_accrued_interest() {
    let pools = vec![pool(1, 1_000_000).encode()];
    let loans = vec![loan(2, 1, LoanStatus::Ongoing, 500_000, 50_000).encode()];
    let now = (CREATED + 500_000) as i64;
    let rows = fetch_rain_pools(&pools, &loans, now).unwrap();
    assert_eq!(rows, vec![RainSupplier { user: id(1), supply: 1_025_000 }]);
}

#[test]
fn borrow_sums_the_amounts_of_a_borrower() {
    let loans = vec![
        loan(2, 1, LoanStatus::Ongoing, 100, 0).encode(),
        loan(2, 3, LoanStatus::Ongoing, 200, 0).encode(),
    ];
    let rows = fetch_rain_borrowers(&loans).unwrap();
    assert_eq!(rows, vec![RainBorrower { user: id(2), borrow: 300 }]);
}

#[test]
fn no_records_no_rows() {
    assert_eq!(fetch_rain_pools(&vec![], &vec![], 0), Ok(vec![]));
    assert_eq!(fetch_rain_borrowers(&vec![]), Ok(vec![]));
}

#[test]
fn each_user_has_one_row() {
    let pools = vec![pool(1, 10), pool(2, 20), pool(1, 30), pool(3, 0), pool(2, 5)];
    let loans = vec![
        loan(9, 4, LoanStatus::Ongoing, 1, 1_000),
        loan(9, 1, LoanStatus::Ongoing, 1, 2_000),
        loan(9, 4, LoanStatus::Ongoing, 1, 4_000),
    ];
    let now = (CREATED + 250_000) as i64;
    let totals = tally_supply(&pools, &loans, now).unwrap();
    let rows = suppliers_of(&totals);
    assert_eq!(
        rows,
        vec![
            RainSupplier { user: id(1), supply: 40 + 500 },
            RainSupplier { user: id(2), supply: 25 },
            RainSupplier { user: id(3), supply: 0 },
            RainSupplier { user: id(4), supply: 250 + 1_000 },
        ]
    );
}

#[test]
fn supply_does_not_depend_on_the_order() {
    let pools = vec![pool(1, 10), pool(2, 20), pool(1, 30), pool(3, 7)];
    let loans = vec![
        loan(9, 4, LoanStatus::Ongoing, 1, 1_000),
        loan(9, 1, LoanStatus::Ongoing, 1, 2_000),
        loan(9, 4, LoanStatus::Repaid, 1, 4_000),
        loan(9, 2, LoanStatus::Ongoing, 1, 8_000),
    ];
    let now = (CREATED + 500_000) as i64;
    let want = vec![(1, 1_040), (2, 4_020), (3, 7), (4, 500)];
    let orders: [[usize; 4]; 5] =
        [[0, 1, 2, 3], [3, 2, 1, 0], [1, 0, 3, 2], [2, 3, 0, 1], [1, 3, 0, 2]];
    for pool_order in orders {
        for loan_order in orders {
            let p: Vec<Vec<u8>> = pool_order.iter().map(|&i| pools[i].encode()).collect();
            let l: Vec<Vec<u8>> = loan_order.iter().map(|&i| loans[i].encode()).collect();
            let rows = fetch_rain_pools(&p, &l, now).unwrap();
            assert_eq!(sorted_supply(rows), want);
        }
    }
}

#[test]
fn borrow_does_not_depend_on_the_order() {
    let loans = vec![
        loan(1, 9, LoanStatus::Ongoing, 100, 0),
        loan(2, 9, LoanStatus::Repaid, 200, 0),
        loan(1, 9, LoanStatus::Sold, 400, 0),
        loan(3, 9, LoanStatus::Liquidated, 800, 0),
    ];
    let want = vec![(1, 500), (2, 200), (3, 800)];
    let orders: [[usize; 4]; 5] =
        [[0, 1, 2, 3], [3, 2, 1, 0], [1, 0, 3, 2], [2, 3, 0, 1], [1, 3, 0, 2]];
    for order in orders {
        let l: Vec<Vec<u8>> = order.iter().map(|&i| loans[i].encode()).collect();
        let rows = fetch_rain_borrowers(&l).unwrap();
        assert_eq!(sorted_borrow(rows), want);
    }
}

#[test]
fn rows_come_in_the_order_of_first_credit() {
    let loans = vec![
        loan(3, 9, LoanStatus::Ongoing, 1, 0),
        loan(1, 9, LoanStatus::Ongoing, 2, 0),
        loan(3, 9, LoanStatus::Ongoing, 4, 0),
        loan(2, 9, LoanStatus::Ongoing, 8, 0),
    ];
    let totals = tally_borrow(&loans).unwrap();
    assert_eq!(
        borrowers_of(&totals),
        vec![
            RainBorrower { user: id(3), borrow: 5 },
            RainBorrower { user: id(1), borrow: 2 },
            RainBorrower { user: id(2), borrow: 8 },
        ]
    );
}

#[test]
fn closed_loans_earn_their_lender_a_row_of_zero() {
    let loans = vec![
        loan(9, 1, LoanStatus::Repaid, 1, 50_000),
        loan(9, 2, LoanStatus::Liquidated, 1, 50_000),
        loan(9, 3, LoanStatus::Sold, 1, 50_000),
    ];
    let now = (CREATED + 500_000) as i64;
    let totals = tally_supply(&vec![], &loans, now).unwrap();
    assert_eq!(totals.len(), 3);
    assert_eq!(totals.get(&id(1)), Some(0));
    assert_eq!(totals.get(&id(2)), Some(0));
    assert_eq!(totals.get(&id(3)), Some(0));
    assert_eq!(totals.get(&id(9)), None);
    let encoded: Vec<Vec<u8>> = loans[..1].iter().map(|l| l.encode()).collect();
    assert_eq!(
        fetch_rain_pools(&vec![], &encoded, now),
        Ok(vec![RainSupplier { user: id(1), supply: 0 }])
    );
}

#[test]
fn a_closed_loan_adds_nothing_to_its_lender() {
    let pools = vec![pool(1, 1_000)];
    let loans = vec![
        loan(9, 1, LoanStatus::Repaid, 1, 50_000),
        loan(9, 2, LoanStatus::Ongoing, 1, 50_000),
        loan(9, 2, LoanStatus::Sold, 1, 50_000),
    ];
    let now = (CREATED + 500_000) as i64;
    let totals = tally_supply(&pools, &loans, now).unwrap();
    assert_eq!(
        suppliers_of(&totals),
        vec![
            RainSupplier { user: id(1), supply: 1_000 },
            RainSupplier { user: id(2), supply: 25_000 },
        ]
    );
}

#[test]
fn lenders_without_a_pool_come_after_the_owners() {
    let pools = vec![pool(3, 1), pool(1, 2)];
    let loans = vec![
        loan(9, 5, LoanStatus::Ongoing, 1, 0),
        loan(9, 1, LoanStatus::Repaid, 1, 0),
        loan(9, 4, LoanStatus::Liquidated, 1, 0),
    ];
    let totals = tally_supply(&pools, &loans, CREATED as i64).unwrap();
    assert_eq!(
        suppliers_of(&totals),
        vec![
            RainSupplier { user: id(3), supply: 1 },
            RainSupplier { user: id(1), supply: 2 },
            RainSupplier { user: id(5), supply: 0 },
            RainSupplier { user: id(4), supply: 0 },
        ]
    );
}

#[test]
fn an_ongoing_loan_earns_its_lender_a_row_even_of_zero() {
    let loans = vec![loan(9, 1, LoanStatus::Ongoing, 1, 50_000)];
    let totals = tally_supply(&vec![], &loans, CREATED as i64).unwrap();
    assert_eq!(totals.get(&id(1)), Some(0));
    assert_eq!(suppliers_of(&totals), vec![RainSupplier { user: id(1), supply: 0 }]);
}

#[test]
fn borrow_counts_loans_of_every_status() {
    let loans = vec![
        loan(1, 9, LoanStatus::Ongoing, 1, 0),
        loan(1, 9, LoanStatus::Repaid, 10, 0),
        loan(1, 9, LoanStatus::Liquidated, 100, 0),
        loan(1, 9, LoanStatus::Sold, 1_000, 0),
    ];
    let totals = tally_borrow(&loans).unwrap();
    assert_eq!(totals.get(&id(1)), Some(1_111));
    assert_eq!(totals.get(&id(9)), None);
}

#[test]
fn users_are_told_apart_by_every_byte() {
    let mut late = [7u8; 32];
    late[31] = 8;
    let mut a = pool(7, 1);
    let mut b = pool(7, 2);
    b.owner = Identity::new(late);
    a.bump = 1;
    let totals = tally_supply(&vec![a, b], &vec![], 0).unwrap();
    assert_eq!(totals.get(&id(7)), Some(1));
    assert_eq!(totals.get(&Identity::new(late)), Some(2));
}

#[test]
fn a_supply_total_past_64_bits_is_an_overflow() {
    let pools = vec![pool(1, u64::MAX), pool(2, 5), pool(1, 1)];
    assert_eq!(tally_supply(&pools, &vec![], 0), Err(RainError::ArithmeticOverflow));
    let pools = vec![pool(1, u64::MAX - 10)];
    let loans = vec![loan(9, 1, LoanStatus::Ongoing, 1, 11)];
    let end = (CREATED + 1_000_000) as i64;
    assert_eq!(tally_supply(&pools, &loans, end), Err(RainError::ArithmeticOverflow));
    let encoded: Vec<Vec<u8>> = pools.iter().map(|p| p.encode()).collect();
    let lent: Vec<Vec<u8>> = loans.iter().map(|l| l.encode()).collect();
    assert_eq!(fetch_rain_pools(&encoded, &lent, end), Err(RainError::ArithmeticOverflow));
    let before = (CREATED + 900_000) as i64;
    let totals = tally_supply(&pools, &loans, before).unwrap();
    assert_eq!(totals.get(&id(1)), Some(u64::MAX - 1));
}

#[test]
fn a_total_of_exactly_64_bits_fits() {
    let pools = vec![pool(1, u64::MAX - 1), pool(1, 1)];
    let totals = tally_supply(&pools, &vec![], 0).unwrap();
    assert_eq!(totals.get(&id(1)), Some(u64::MAX));
}

#[test]
fn a_borrow_total_past_64_bits_is_an_overflow() {
    let loans = vec![
        loan(1, 9, LoanStatus::Ongoing, 1 << 63, 0),
        loan(2, 9, LoanStatus::Ongoing, 1 << 63, 0),
        loan(1, 9, LoanStatus::Repaid, 1 << 63, 0),
    ];
    assert_eq!(tally_borrow(&loans), Err(RainError::ArithmeticOverflow));
    let encoded: Vec<Vec<u8>> = loans.iter().map(|l| l.encode()).collect();
    assert_eq!(fetch_rain_borrowers(&encoded), Err(RainError::ArithmeticOverflow));
    assert!(tally_borrow(&loans[..2].to_vec()).is_ok());
}

#[test]
fn one_bad_buffer_fails_the_batch() {
    let good = pool(1, 10).encode();
    let mut short = good.clone();
    short.pop();
    assert_eq!(decode_pools(&vec![good.clone(), short.clone(), good.clone()]), Err(DecodeError::BadLength));
    assert_eq!(
        fetch_rain_pools(&vec![good.clone(), short], &vec![], 0),
        Err(RainError::Decode(DecodeError::BadLength))
    );
    assert_eq!(decode_pools(&vec![good.clone(), good]), Ok(vec![pool(1, 10), pool(1, 10)]));
}

#[test]
fn the_first_bad_buffer_names_the_error() {
    let good = loan(1, 2, LoanStatus::Ongoing, 1, 1).encode();
    let mut bad_field = good.clone();
    bad_field[9] = 0;
    let mut bad_length = good.clone();
    bad_length.push(0);
    assert_eq!(
        decode_loans(&vec![good.clone(), bad_field.clone(), bad_length.clone()]),
        Err(DecodeError::BadField)
    );
    assert_eq!(
        decode_loans(&vec![bad_length.clone(), bad_field.clone(), good.clone()]),
        Err(DecodeError::BadLength)
    );
    assert_eq!(
        fetch_rain_borrowers(&vec![good, bad_field]),
        Err(RainError::Decode(DecodeError::BadField))
    );
}

#[test]
fn pools_are_decoded_before_loans_and_both_before_sums() {
    let mut bad_pool = pool(1, 1).encode();
    bad_pool.push(0);
    let mut bad_loan = loan(1, 2, LoanStatus::Ongoing, 1, 1).encode();
    bad_loan[8] = 9;
    assert_eq!(
        fetch_rain_pools(&vec![bad_pool], &vec![bad_loan.clone()], 0),
        Err(RainError::Decode(DecodeError::BadLength))
    );
    let overflowing = vec![pool(1, u64::MAX).encode(), pool(1, 1).encode()];
    assert_eq!(
        fetch_rain_pools(&overflowing, &vec![bad_loan], 0),
        Err(RainError::Decode(DecodeError::BadField))
    );
}

#[test]
fn credits_add_up_by_user() {
    let mut totals = UserTotals::new();
    assert_eq!(totals.len(), 0);
    assert_eq!(totals.get(&id(1)), None);
    assert_eq!(totals.credit(&id(1), 5), Ok(()));
    assert_eq!(totals.credit(&id(2), 0), Ok(()));
    assert_eq!(totals.credit(&id(1), 6), Ok(()));
    assert_eq!(totals.len(), 2);
    assert_eq!(totals.get(&id(1)), Some(11));
    assert_eq!(totals.get(&id(2)), Some(0));
    assert_eq!(totals.get(&id(3)), None);
    assert_eq!(
        totals.entries,
        vec![Entry { user: id(1), total: 11 }, Entry { user: id(2), total: 0 }]
    );
}

#[test]
fn a_refused_credit_changes_nothing() {
    let mut totals = UserTotals::new();
    assert_eq!(totals.credit(&id(1), u64::MAX), Ok(()));
    assert_eq!(totals.credit(&id(1), 1), Err(RainError::ArithmeticOverflow));
    assert_eq!(totals.get(&id(1)), Some(u64::MAX));
    assert_eq!(totals.credit(&id(1), 0), Ok(()));
    assert_eq!(totals.credit(&id(2), u64::MAX), Ok(()));
    assert_eq!(totals.len(), 2);
}

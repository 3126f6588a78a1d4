//! Read-only analytics over snapshots of a lending market: fixed-layout
//! account records are decoded from raw bytes and folded into per-user totals
//! of supplied and borrowed capital.
//!
//! The buffers come from whoever fetched them, already selected by the
//! filters of [`filter`]. Nothing here reads a clock or a network: the time
//! of the query is an argument.

use vstd::prelude::*;
use crate::aggregate::{
    borrow_totals, borrow_users, lemma_borrow_order_independent, lemma_supply_order_independent,
    supply_totals, supply_users, tally_borrow, tally_supply,
};
use crate::batch::{
    buffers, decode_loans, decode_pools, lemma_decode_batch_permutation, spec_decode_loans,
    spec_decode_pools,
};
use crate::state::{Loan, Pool};
use crate::error::RainError;
use crate::identity::Identity;
use crate::totals::{fits, UserTotals};

pub mod aggregate;
pub mod batch;
pub mod error;
pub mod filter;
pub mod identity;
pub mod interest;
pub mod state;
pub mod sums;
pub mod totals;
pub mod wire;

verus! {

/// A user and the capital that the user supplies.
#[derive(Clone, Copy, Debug, PartialEq, Eq)]
pub struct RainSupplier {
    pub user: Identity,
    pub supply: u64,
}

/// A user and the capital that the user has borrowed.
#[derive(Clone, Copy, Debug, PartialEq, Eq)]
pub struct RainBorrower {
    pub user: Identity,
    pub borrow: u64,
}

/// The users of the rows, in the order of the rows.
pub open spec fn supplier_users(suppliers: Seq<RainSupplier>) -> Seq<Seq<u8>> {
    Seq::new(suppliers.len(), |i: int| suppliers[i].user@)
}

/// The users of the rows, in the order of the rows.
pub open spec fn borrower_users(borrowers: Seq<RainBorrower>) -> Seq<Seq<u8>> {
    Seq::new(borrowers.len(), |i: int| borrowers[i].user@)
}

/// Whether `suppliers` lists `totals`: one row for each user with a total,
/// none for anyone else, each with that user's total.
pub open spec fn lists_supply(suppliers: Seq<RainSupplier>, totals: Map<Seq<u8>, nat>) -> bool {
    &&& forall|i: int, j: int|
        0 <= i < j < suppliers.len() ==> suppliers[i].user@ != suppliers[j].user@
    &&& forall|i: int|
        0 <= i < suppliers.len() ==> totals.contains_key(#[trigger] suppliers[i].user@)
            && totals[suppliers[i].user@] == suppliers[i].supply
    &&& forall|user: Seq<u8>| #[trigger]
        totals.contains_key(user) ==> exists|i: int|
            0 <= i < suppliers.len() && #[trigger] suppliers[i].user@ == user
}

/// Whether `borrowers` lists `totals`: one row for each user with a total,
/// none for anyone else, each with that user's total.
pub open spec fn lists_borrow(borrowers: Seq<RainBorrower>, totals: Map<Seq<u8>, nat>) -> bool {
    &&& forall|i: int, j: int|
        0 <= i < j < borrowers.len() ==> borrowers[i].user@ != borrowers[j].user@
    &&& forall|i: int|
        0 <= i < borrowers.len() ==> totals.contains_key(#[trigger] borrowers[i].user@)
            && totals[borrowers[i].user@] == borrowers[i].borrow
    &&& forall|user: Seq<u8>| #[trigger]
        totals.contains_key(user) ==> exists|i: int|
            0 <= i < borrowers.len() && #[trigger] borrowers[i].user@ == user
}

/// The totals as rows of suppliers, in the order in which the users were
/// first credited.
pub fn suppliers_of(totals: &UserTotals) -> (suppliers: Vec<RainSupplier>)
    requires
        totals.wf(),
    ensures
        lists_supply(suppliers@, totals@),
        supplier_users(suppliers@) == totals.users(),
        suppliers@.len() == totals.entries@.len(),
        forall|i: int|
            0 <= i < suppliers@.len() ==> suppliers@[i].user == totals.entries@[i].user
                && suppliers@[i].supply == totals.entries@[i].total,
{
    let mut suppliers: Vec<RainSupplier> = Vec::new();
    let mut i: usize = 0;
    while i < totals.entries.len()
        invariant
            i <= totals.entries@.len(),
            suppliers@.len() == i,
            forall|k: int|
                0 <= k < i ==> suppliers@[k].user == totals.entries@[k].user && suppliers@[k].supply
                    == totals.entries@[k].total,
        decreases totals.entries@.len() - i,
    {
        let entry = &totals.entries[i];
        suppliers.push(RainSupplier { user: entry.user, supply: entry.total });
        i = i + 1;
    }
    proof {
        assert forall|k: int| 0 <= k < suppliers@.len() implies totals@.contains_key(
            #[trigger] suppliers@[k].user@,
        ) && totals@[suppliers@[k].user@] == suppliers@[k].supply by {
            totals.lemma_slot(k);
        }
        assert forall|user: Seq<u8>| #[trigger] totals@.contains_key(user) implies exists|i: int|
            0 <= i < suppliers@.len() && #[trigger] suppliers@[i].user@ == user by {
            let at = totals.slot(user);
            assert(suppliers@[at].user@ == user);
        }
        assert(supplier_users(suppliers@) =~= totals.users());
    }
    suppliers
}

/// The totals as rows of borrowers, in the order in which the users were
/// first credited.
pub fn borrowers_of(totals: &UserTotals) -> (borrowers: Vec<RainBorrower>)
    requires
        totals.wf(),
    ensures
        lists_borrow(borrowers@, totals@),
        borrower_users(borrowers@) == totals.users(),
        borrowers@.len() == totals.entries@.len(),
        forall|i: int|
            0 <= i < borrowers@.len() ==> borrowers@[i].user == totals.entries@[i].user
                && borrowers@[i].borrow == totals.entries@[i].total,
{
    let mut borrowers: Vec<RainBorrower> = Vec::new();
    let mut i: usize = 0;
    while i < totals.entries.len()
        invariant
            i <= totals.entries@.len(),
            borrowers@.len() == i,
            forall|k: int|
                0 <= k < i ==> borrowers@[k].user == totals.entries@[k].user && borrowers@[k].borrow
                    == totals.entries@[k].total,
        decreases totals.entries@.len() - i,
    {
        let entry = &totals.entries[i];
        borrowers.push(RainBorrower { user: entry.user, borrow: entry.total });
        i = i + 1;
    }
    proof {
        assert forall|k: int| 0 <= k < borrowers@.len() implies totals@.contains_key(
            #[trigger] borrowers@[k].user@,
        ) && totals@[borrowers@[k].user@] == borrowers@[k].borrow by {
            totals.lemma_slot(k);
        }
        assert forall|user: Seq<u8>| #[trigger] totals@.contains_key(user) implies exists|i: int|
            0 <= i < borrowers@.len() && #[trigger] borrowers@[i].user@ == user by {
            let at = totals.slot(user);
            assert(borrowers@[at].user@ == user);
        }
        assert(borrower_users(borrowers@) =~= totals.users());
    }
    borrowers
}

/// The supply view of one currency at the Unix time `now`, from the buffers
/// of its pools and of its loans: for each user the deposits in the user's
/// pools and the interest accrued on the loans that the user has lent. Every
/// owner of a pool and every lender of a loan has a row. A loan that is over
/// counts with nothing; the filters for ongoing loans keep such loans out of
/// what is fetched.
///
/// All buffers are decoded before anything is added up, the pools first. The
/// first buffer that is not a record fails the query, and so does a total
/// that does not fit in 64 bits: no part of a view is handed out. The rows
/// come in the order in which the records first name their users.
pub fn fetch_rain_pools(
    pool_accounts: &Vec<Vec<u8>>,
    loan_accounts: &Vec<Vec<u8>>,
    now: i64,
) -> (fetched: Result<Vec<RainSupplier>, RainError>)
    ensures
        match spec_decode_pools(buffers(pool_accounts@)) {
            Err(error) => fetched == Err::<Vec<RainSupplier>, RainError>(RainError::Decode(error)),
            Ok(pools) => match spec_decode_loans(buffers(loan_accounts@)) {
                Err(error) => fetched == Err::<Vec<RainSupplier>, RainError>(
                    RainError::Decode(error),
                ),
                Ok(loans) => match fetched {
                    Ok(suppliers) => {
                        &&& fits(supply_totals(pools, loans, now as int))
                        &&& lists_supply(suppliers@, supply_totals(pools, loans, now as int))
                        &&& supplier_users(suppliers@) == supply_users(pools, loans, now as int)
                    },
                    Err(error) => {
                        &&& error == RainError::ArithmeticOverflow
                        &&& !fits(supply_totals(pools, loans, now as int))
                    },
                },
            },
        },
{
    let pools = match decode_pools(pool_accounts) {
        Ok(pools) => pools,
        Err(error) => {
            return Err(RainError::Decode(error));
        },
    };
    let loans = match decode_loans(loan_accounts) {
        Ok(loans) => loans,
        Err(error) => {
            return Err(RainError::Decode(error));
        },
    };
    match tally_supply(&pools, &loans, now) {
        Ok(totals) => Ok(suppliers_of(&totals)),
        Err(error) => Err(error),
    }
}

/// The borrow view of one currency, from the buffers of its loans: for each
/// user the amounts of the user's loans, whatever their status.
///
/// All buffers are decoded before anything is added up. The first buffer
/// that is not a loan fails the query, and so does a total that does not fit
/// in 64 bits: no part of a view is handed out. The rows come in the order in
/// which the loans first name their borrowers.
pub fn fetch_rain_borrowers(loan_accounts: &Vec<Vec<u8>>) -> (fetched: Result<
    Vec<RainBorrower>,
    RainError,
>)
    ensures
        match spec_decode_loans(buffers(loan_accounts@)) {
            Err(error) => fetched == Err::<Vec<RainBorrower>, RainError>(RainError::Decode(error)),
            Ok(loans) => match fetched {
                Ok(borrowers) => {
                    &&& fits(borrow_totals(loans))
                    &&& lists_borrow(borrowers@, borrow_totals(loans))
                    &&& borrower_users(borrowers@) == borrow_users(loans)
                },
                Err(error) => {
                    &&& error == RainError::ArithmeticOverflow
                    &&& !fits(borrow_totals(loans))
                },
            },
        },
{
    let loans = match decode_loans(loan_accounts) {
        Ok(loans) => loans,
        Err(error) => {
            return Err(RainError::Decode(error));
        },
    };
    match tally_borrow(&loans) {
        Ok(totals) => Ok(borrowers_of(&totals)),
        Err(error) => Err(error),
    }
}

/// The supply view does not depend on the order in which the buffers were
/// fetched: the same buffers in another order decode together or not at all,
/// and give every user the same total.
pub proof fn lemma_supply_view_order_independent(
    pools_a: Seq<Seq<u8>>,
    pools_b: Seq<Seq<u8>>,
    loans_a: Seq<Seq<u8>>,
    loans_b: Seq<Seq<u8>>,
    now: int,
)
    requires
        pools_a.to_multiset() == pools_b.to_multiset(),
        loans_a.to_multiset() == loans_b.to_multiset(),
    ensures
        spec_decode_pools(pools_a) is Ok <==> spec_decode_pools(pools_b) is Ok,
        spec_decode_loans(loans_a) is Ok <==> spec_decode_loans(loans_b) is Ok,
        spec_decode_pools(pools_a) is Ok && spec_decode_loans(loans_a) is Ok ==> supply_totals(
            spec_decode_pools(pools_a).unwrap(),
            spec_decode_loans(loans_a).unwrap(),
            now,
        ) == supply_totals(
            spec_decode_pools(pools_b).unwrap(),
            spec_decode_loans(loans_b).unwrap(),
            now,
        ),
{
    lemma_decode_batch_permutation::<Pool>(pools_a, pools_b);
    lemma_decode_batch_permutation::<Loan>(loans_a, loans_b);
    if spec_decode_pools(pools_a) is Ok && spec_decode_loans(loans_a) is Ok {
        lemma_supply_order_independent(
            spec_decode_pools(pools_a).unwrap(),
            spec_decode_pools(pools_b).unwrap(),
            spec_decode_loans(loans_a).unwrap(),
            spec_decode_loans(loans_b).unwrap(),
            now,
        );
    }
}

/// The borrow view does not depend on the order in which the buffers were
/// fetched: the same buffers in another order decode together or not at all,
/// and give every user the same total.
pub proof fn lemma_borrow_view_order_independent(loans_a: Seq<Seq<u8>>, loans_b: Seq<Seq<u8>>)
    requires
        loans_a.to_multiset() == loans_b.to_multiset(),
    ensures
        spec_decode_loans(loans_a) is Ok <==> spec_decode_loans(loans_b) is Ok,
        spec_decode_loans(loans_a) is Ok ==> borrow_totals(spec_decode_loans(loans_a).unwrap())
            == borrow_totals(spec_decode_loans(loans_b).unwrap()),
{
    lemma_decode_batch_permutation::<Loan>(loans_a, loans_b);
    if spec_decode_loans(loans_a) is Ok {
        lemma_borrow_order_independent(
            spec_decode_loans(loans_a).unwrap(),
            spec_decode_loans(loans_b).unwrap(),
        );
    }
}

} // verus!

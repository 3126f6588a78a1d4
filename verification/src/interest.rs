//! The interest that an ongoing loan has earned its lender so far.
//!
//! A loan's `interest` is what it earns over its whole `duration`. It accrues
//! evenly from `created_at` on, second by second, and stops when the duration
//! is over, however late the question is asked.

use vstd::prelude::*;
use crate::state::{Loan, LoanStatus};

verus! {

/// The seconds of a loan that count at time `now`: none before it was made,
/// and never more than its duration.
pub open spec fn elapsed_within(loan: Loan, now: int) -> nat {
    if now <= loan.created_at {
        0
    } else if now - loan.created_at >= loan.duration {
        loan.duration as nat
    } else {
        (now - loan.created_at) as nat
    }
}

/// The interest accrued at time `now`: the share of the loan's interest that
/// the counted seconds are of its duration, rounded down. A loan that is not
/// ongoing, or that has no duration, accrues nothing.
pub open spec fn accrued_interest(loan: Loan, now: int) -> nat {
    if loan.status != LoanStatus::Ongoing || loan.duration == 0 {
        0
    } else {
        (loan.interest as nat * elapsed_within(loan, now)) / (loan.duration as nat)
    }
}

/// The seconds since the Unix epoch as a time that `compute_dynamic_interest`
/// takes: `None` for a count that no signed 64-bit time can hold.
pub fn checked_timestamp(seconds: u64) -> (now: Option<i64>)
    ensures
        seconds <= i64::MAX ==> now == Some(seconds as i64),
        seconds > i64::MAX ==> now is None,
{
    if seconds <= 0x7fff_ffff_ffff_ffff {
        Some(seconds as i64)
    } else {
        None
    }
}

/// The interest that `loan` has accrued at the Unix time `now`: nothing for a
/// loan that is not ongoing, nothing at or before `created_at`, the whole
/// interest once the duration is over. The product of interest and seconds is
/// taken in 128 bits, so no loan and no time overflows.
pub fn compute_dynamic_interest(loan: &Loan, now: i64) -> (accrued: u64)
    ensures
        accrued as nat == accrued_interest(*loan, now as int),
        accrued <= loan.interest,
{
    proof {
        lemma_accrued_at_most_interest(*loan, now as int);
    }
    if loan.status != LoanStatus::Ongoing || loan.duration == 0 || now < 0 {
        return 0;
    }
    let now: u64 = now as u64;
    if now <= loan.created_at {
        return 0;
    }
    let since: u64 = now - loan.created_at;
    let counted: u64 = if since >= loan.duration {
        loan.duration
    } else {
        since
    };
    assert(loan.interest as u128 * counted as u128 <= 0xffff_ffff_ffff_ffff * 0xffff_ffff_ffff_ffff)
        by (nonlinear_arith)
        requires
            loan.interest <= 0xffff_ffff_ffff_ffff,
            counted <= 0xffff_ffff_ffff_ffff,
    ;
    let product: u128 = loan.interest as u128 * counted as u128;
    (product / loan.duration as u128) as u64
}

/// No loan accrues more than its interest.
pub proof fn lemma_accrued_at_most_interest(loan: Loan, now: int)
    ensures
        accrued_interest(loan, now) <= loan.interest,
{
    if loan.status == LoanStatus::Ongoing && loan.duration != 0 {
        let i = loan.interest as nat;
        let e = elapsed_within(loan, now);
        let d = loan.duration as nat;
        assert((i * e) / d <= i) by (nonlinear_arith)
            requires
                e <= d,
                d > 0,
        ;
    }
}

/// As time goes on, the accrued interest never falls.
pub proof fn lemma_accrued_monotonic(loan: Loan, earlier: int, later: int)
    requires
        earlier <= later,
    ensures
        accrued_interest(loan, earlier) <= accrued_interest(loan, later),
{
    if loan.status == LoanStatus::Ongoing && loan.duration != 0 {
        let i = loan.interest as nat;
        let e1 = elapsed_within(loan, earlier);
        let e2 = elapsed_within(loan, later);
        let d = loan.duration as nat;
        assert(e1 <= e2);
        assert(i * e1 <= i * e2) by (nonlinear_arith)
            requires
                e1 <= e2,
        ;
        vstd::arithmetic::div_mod::lemma_div_is_ordered((i * e1) as int, (i * e2) as int, d as int);
    }
}

/// Once the duration is over, the accrued interest stays where it is: at the
/// whole interest of an ongoing loan with a duration.
pub proof fn lemma_accrued_clamped(loan: Loan, now: int)
    requires
        now - loan.created_at >= loan.duration,
    ensures
        loan.status == LoanStatus::Ongoing && loan.duration > 0 ==> accrued_interest(loan, now)
            == loan.interest,
        accrued_interest(loan, now) == accrued_interest(loan, loan.created_at + loan.duration),
{
    if loan.status == LoanStatus::Ongoing && loan.duration != 0 {
        let i = loan.interest as nat;
        let d = loan.duration as nat;
        assert(elapsed_within(loan, now) == d);
        assert(elapsed_within(loan, loan.created_at + loan.duration) == d);
        assert((i * d) / d == i) by (nonlinear_arith)
            requires
                d > 0,
        ;
    }
}

/// At the moment a loan is made, and before, nothing has accrued.
pub proof fn lemma_accrued_zero_at_creation(loan: Loan, now: int)
    requires
        now <= loan.created_at,
    ensures
        accrued_interest(loan, now) == 0,
{
    if loan.status == LoanStatus::Ongoing && loan.duration != 0 {
        let i = loan.interest as nat;
        let d = loan.duration as nat;
        assert(elapsed_within(loan, now) == 0);
        assert((i * 0) / d == 0) by (nonlinear_arith)
            requires
                d > 0,
        ;
    }
}

} // verus!

//! Folding records into totals by user.
//!
//! Each record credits one user with one amount. The totals of a sequence of
//! records hold, for each user that some record credits, the sum of what the
//! records credit that user. A user whom no record credits has no total, not
//! even one of zero; a user who is credited zero has a total of zero.

use vstd::prelude::*;
use crate::error::RainError;
use crate::interest::{accrued_interest, compute_dynamic_interest};
use crate::state::{Loan, LoanStatus, Pool};
use crate::sums::{
    any_of, lemma_any_of_permutation, lemma_any_of_take, lemma_sum_by_nothing,
    lemma_sum_by_permutation, lemma_sum_by_prefix, lemma_sum_by_take, sum_by,
};
use crate::totals::{fits, total_in, with_credit, with_user, UserTotals};

verus! {

/// What a record gives `user`, under the rule `credit_of` that says whom a
/// record credits and with how much.
pub open spec fn share_of<T>(
    credit_of: spec_fn(T) -> (Seq<u8>, nat),
    user: Seq<u8>,
) -> spec_fn(T) -> nat {
    |item: T|
        if credit_of(item).0 == user {
            credit_of(item).1
        } else {
            0
        }
}

/// Whether a record credits `user`.
pub open spec fn credits<T>(
    credit_of: spec_fn(T) -> (Seq<u8>, nat),
    user: Seq<u8>,
) -> spec_fn(T) -> bool {
    |item: T| credit_of(item).0 == user
}

/// The totals of `items`: a total for each user that some item credits, the
/// sum of that user's shares.
pub open spec fn totals_of<T>(
    items: Seq<T>,
    credit_of: spec_fn(T) -> (Seq<u8>, nat),
) -> Map<Seq<u8>, nat> {
    Map::new(
        |user: Seq<u8>| any_of(items, credits(credit_of, user)),
        |user: Seq<u8>| sum_by(items, share_of(credit_of, user)),
    )
}

/// The users that `items` credit, after those of `start`, each once, in the
/// order in which the items first credit them.
pub open spec fn users_after<T>(
    start: Seq<Seq<u8>>,
    items: Seq<T>,
    credit_of: spec_fn(T) -> (Seq<u8>, nat),
) -> Seq<Seq<u8>>
    decreases items.len(),
{
    if items.len() == 0 {
        start
    } else {
        with_user(users_after(start, items.drop_last(), credit_of), credit_of(items.last()).0)
    }
}

/// Two sets of totals taken together: whoever has a total in either has the
/// sum of both here.
pub open spec fn merged(a: Map<Seq<u8>, nat>, b: Map<Seq<u8>, nat>) -> Map<Seq<u8>, nat> {
    Map::new(
        |user: Seq<u8>| a.contains_key(user) || b.contains_key(user),
        |user: Seq<u8>| total_in(a, user) + total_in(b, user),
    )
}

/// A pool credits its owner with all that was deposited.
pub open spec fn pool_credit() -> spec_fn(Pool) -> (Seq<u8>, nat) {
    |pool: Pool| (pool.owner@, pool.total_amount as nat)
}

/// A loan credits its lender with the interest accrued at `now`: nothing
/// where the loan is over, but the lender is credited all the same.
pub open spec fn interest_credit(now: int) -> spec_fn(Loan) -> (Seq<u8>, nat) {
    |loan: Loan| (loan.lender@, accrued_interest(loan, now))
}

/// A loan, whatever its status, counts for its borrower with the amount
/// borrowed.
pub open spec fn debt_credit() -> spec_fn(Loan) -> (Seq<u8>, nat) {
    |loan: Loan| (loan.borrower@, loan.amount as nat)
}

/// What each user supplies at `now`: the deposits in that user's pools and
/// the interest accrued on the loans that the user has lent. Every owner of a
/// pool and every lender of a loan has a total; that of a lender whose loans
/// are all over, and who owns no pool, is zero.
pub open spec fn supply_totals(pools: Seq<Pool>, loans: Seq<Loan>, now: int) -> Map<Seq<u8>, nat> {
    merged(totals_of(pools, pool_credit()), totals_of(loans, interest_credit(now)))
}

/// The users who supply, in the order of their rows: pool owners as the pools
/// first name them, then the lenders who own no pool, as the loans first name
/// them.
pub open spec fn supply_users(pools: Seq<Pool>, loans: Seq<Loan>, now: int) -> Seq<Seq<u8>> {
    users_after(
        users_after(Seq::<Seq<u8>>::empty(), pools, pool_credit()),
        loans,
        interest_credit(now),
    )
}

/// The users who have borrowed, in the order of their rows: as the loans
/// first name them.
pub open spec fn borrow_users(loans: Seq<Loan>) -> Seq<Seq<u8>> {
    users_after(Seq::<Seq<u8>>::empty(), loans, debt_credit())
}

/// What each user has borrowed: the amounts of that user's loans.
pub open spec fn borrow_totals(loans: Seq<Loan>) -> Map<Seq<u8>, nat> {
    totals_of(loans, debt_credit())
}

/// A user whom no item credits has a sum of nothing.
pub proof fn lemma_uncredited<T>(
    items: Seq<T>,
    credit_of: spec_fn(T) -> (Seq<u8>, nat),
    user: Seq<u8>,
)
    requires
        !any_of(items, credits(credit_of, user)),
    ensures
        sum_by(items, share_of(credit_of, user)) == 0,
{
    assert forall|i: int| 0 <= i < items.len() implies share_of(credit_of, user)(
        #[trigger] items[i],
    ) == 0 by {
        assert(!credits(credit_of, user)(items[i]));
    }
    lemma_sum_by_nothing(items, share_of(credit_of, user));
}

/// The totals of one more item: those before, with the item's credit.
pub proof fn lemma_totals_of_take<T>(
    items: Seq<T>,
    n: int,
    credit_of: spec_fn(T) -> (Seq<u8>, nat),
)
    requires
        0 <= n < items.len(),
    ensures
        totals_of(items.take(n + 1), credit_of) == with_credit(
            totals_of(items.take(n), credit_of),
            credit_of(items[n]).0,
            credit_of(items[n]).1,
        ),
{
    let shorter = totals_of(items.take(n), credit_of);
    let longer = totals_of(items.take(n + 1), credit_of);
    let want = with_credit(shorter, credit_of(items[n]).0, credit_of(items[n]).1);
    assert forall|user: Seq<u8>|
        #![trigger longer.contains_key(user)]
        #![trigger want.contains_key(user)]
        longer.contains_key(user) == want.contains_key(user) && (longer.contains_key(user)
            ==> longer[user] == want[user]) by {
        lemma_any_of_take(items, n, credits(credit_of, user));
        lemma_sum_by_take(items, n, share_of(credit_of, user));
        if !shorter.contains_key(user) {
            lemma_uncredited(items.take(n), credit_of, user);
        }
    }
    assert(longer =~= want);
}

/// The users of one more item: those before, with the user that the item
/// credits.
pub proof fn lemma_users_after_take<T>(
    start: Seq<Seq<u8>>,
    items: Seq<T>,
    n: int,
    credit_of: spec_fn(T) -> (Seq<u8>, nat),
)
    requires
        0 <= n < items.len(),
    ensures
        users_after(start, items.take(n + 1), credit_of) == with_user(
            users_after(start, items.take(n), credit_of),
            credit_of(items[n]).0,
        ),
{
    assert(items.take(n + 1).drop_last() =~= items.take(n));
}

/// `users_after` lists each user once: those of `start`, and those whom some
/// item credits.
pub proof fn lemma_users_after<T>(
    start: Seq<Seq<u8>>,
    items: Seq<T>,
    credit_of: spec_fn(T) -> (Seq<u8>, nat),
)
    requires
        start.no_duplicates(),
    ensures
        users_after(start, items, credit_of).no_duplicates(),
        forall|user: Seq<u8>|
            #![trigger users_after(start, items, credit_of).contains(user)]
            users_after(start, items, credit_of).contains(user) <==> start.contains(user)
                || any_of(items, credits(credit_of, user)),
    decreases items.len(),
{
    let users = users_after(start, items, credit_of);
    if items.len() == 0 {
        assert forall|user: Seq<u8>| !any_of(items, credits(credit_of, user)) by {}
    } else {
        let front = items.drop_last();
        let before = users_after(start, front, credit_of);
        lemma_users_after(start, front, credit_of);
        assert(front =~= items.take(items.len() - 1));
        assert(items =~= items.take(items.len() as int));
        assert forall|user: Seq<u8>| #![trigger users.contains(user)]
            users.contains(user) <==> start.contains(user) || any_of(
                items,
                credits(credit_of, user),
            ) by {
            lemma_any_of_take(items, items.len() - 1, credits(credit_of, user));
            assert(any_of(items, credits(credit_of, user)) == (any_of(
                front,
                credits(credit_of, user),
            ) || credits(credit_of, user)(items.last())));
            assert(before.contains(user) <==> start.contains(user) || any_of(
                front,
                credits(credit_of, user),
            ));
            let named = credit_of(items.last()).0;
            assert(credits(credit_of, user)(items.last()) == (named == user));
            if !before.contains(named) {
                assert(users == before.push(named));
                assert(users[before.len() as int] == named);
                if users.contains(user) {
                    let k = choose|k: int| 0 <= k < users.len() && users[k] == user;
                    if k < before.len() {
                        assert(before[k] == user);
                    }
                }
                if before.contains(user) {
                    let k = choose|k: int| 0 <= k < before.len() && before[k] == user;
                    assert(users[k] == user);
                }
            }
        }
    }
}

/// No items, no totals.
pub proof fn lemma_totals_of_nothing<T>(
    items: Seq<T>,
    credit_of: spec_fn(T) -> (Seq<u8>, nat),
)
    requires
        items.len() == 0,
    ensures
        totals_of(items, credit_of) == Map::<Seq<u8>, nat>::empty(),
{
    assert(totals_of(items, credit_of) =~= Map::<Seq<u8>, nat>::empty());
}

/// A total over the first items is never more than the user's total over all.
pub proof fn lemma_totals_of_grow<T>(
    items: Seq<T>,
    n: int,
    credit_of: spec_fn(T) -> (Seq<u8>, nat),
    user: Seq<u8>,
)
    requires
        0 <= n <= items.len(),
    ensures
        total_in(totals_of(items.take(n), credit_of), user) <= total_in(
            totals_of(items, credit_of),
            user,
        ),
        totals_of(items.take(n), credit_of).contains_key(user) ==> totals_of(
            items,
            credit_of,
        ).contains_key(user),
{
    lemma_sum_by_prefix(items, n, share_of(credit_of, user));
    if !any_of(items, credits(credit_of, user)) {
        lemma_uncredited(items, credit_of, user);
    }
    if any_of(items.take(n), credits(credit_of, user)) {
        let front = items.take(n);
        let i = choose|i: int| 0 <= i < front.len() && credits(credit_of, user)(#[trigger] front[i]);
        assert(credits(credit_of, user)(items[i]));
    }
}

/// The totals do not depend on the order of the items: two sequences that
/// hold the same items, each as often as the other, have the same totals.
pub proof fn lemma_totals_of_permutation<T>(
    a: Seq<T>,
    b: Seq<T>,
    credit_of: spec_fn(T) -> (Seq<u8>, nat),
)
    requires
        a.to_multiset() == b.to_multiset(),
    ensures
        totals_of(a, credit_of) == totals_of(b, credit_of),
{
    assert forall|user: Seq<u8>|
        any_of(a, credits(credit_of, user)) == any_of(b, credits(credit_of, user)) && sum_by(
            a,
            share_of(credit_of, user),
        ) == sum_by(b, share_of(credit_of, user)) by {
        lemma_any_of_permutation(a, b, credits(credit_of, user));
        lemma_sum_by_permutation(a, b, share_of(credit_of, user));
    }
    assert(totals_of(a, credit_of) =~= totals_of(b, credit_of));
}

/// Merging with no totals changes nothing.
pub proof fn lemma_merged_nothing(a: Map<Seq<u8>, nat>)
    ensures
        merged(a, Map::<Seq<u8>, nat>::empty()) == a,
{
    assert(merged(a, Map::<Seq<u8>, nat>::empty()) =~= a);
}

/// A credit to one side of a merge is a credit to the merge.
pub proof fn lemma_merged_credit(
    a: Map<Seq<u8>, nat>,
    b: Map<Seq<u8>, nat>,
    user: Seq<u8>,
    amount: nat,
)
    ensures
        merged(a, with_credit(b, user, amount)) == with_credit(merged(a, b), user, amount),
{
    assert(merged(a, with_credit(b, user, amount)) =~= with_credit(merged(a, b), user, amount));
}

/// The users who supply are listed once each, and they are the users who
/// have a total.
pub proof fn lemma_supply_users(pools: Seq<Pool>, loans: Seq<Loan>, now: int)
    ensures
        supply_users(pools, loans, now).no_duplicates(),
        forall|user: Seq<u8>|
            #![trigger supply_users(pools, loans, now).contains(user)]
            supply_users(pools, loans, now).contains(user) <==> supply_totals(
                pools,
                loans,
                now,
            ).contains_key(user),
{
    let nobody = Seq::<Seq<u8>>::empty();
    let owners = users_after(nobody, pools, pool_credit());
    lemma_users_after(nobody, pools, pool_credit());
    lemma_users_after(owners, loans, interest_credit(now));
    assert forall|user: Seq<u8>| #![trigger supply_users(pools, loans, now).contains(user)]
        supply_users(pools, loans, now).contains(user) <==> supply_totals(
            pools,
            loans,
            now,
        ).contains_key(user) by {
        assert(!nobody.contains(user));
        assert(owners.contains(user) <==> any_of(pools, credits(pool_credit(), user)));
    }
}

/// The users who have borrowed are listed once each, and they are the users
/// who have a total.
pub proof fn lemma_borrow_users(loans: Seq<Loan>)
    ensures
        borrow_users(loans).no_duplicates(),
        forall|user: Seq<u8>|
            #![trigger borrow_users(loans).contains(user)]
            borrow_users(loans).contains(user) <==> borrow_totals(loans).contains_key(user),
{
    let nobody = Seq::<Seq<u8>>::empty();
    lemma_users_after(nobody, loans, debt_credit());
    assert forall|user: Seq<u8>| #![trigger borrow_users(loans).contains(user)]
        borrow_users(loans).contains(user) <==> borrow_totals(loans).contains_key(user) by {
        assert(!nobody.contains(user));
    }
}

/// What every user supplies does not depend on the order of the pools or of
/// the loans.
pub proof fn lemma_supply_order_independent(
    pools_a: Seq<Pool>,
    pools_b: Seq<Pool>,
    loans_a: Seq<Loan>,
    loans_b: Seq<Loan>,
    now: int,
)
    requires
        pools_a.to_multiset() == pools_b.to_multiset(),
        loans_a.to_multiset() == loans_b.to_multiset(),
    ensures
        supply_totals(pools_a, loans_a, now) == supply_totals(pools_b, loans_b, now),
{
    lemma_totals_of_permutation(pools_a, pools_b, pool_credit());
    lemma_totals_of_permutation(loans_a, loans_b, interest_credit(now));
}

/// What every user has borrowed does not depend on the order of the loans.
pub proof fn lemma_borrow_order_independent(loans_a: Seq<Loan>, loans_b: Seq<Loan>)
    requires
        loans_a.to_multiset() == loans_b.to_multiset(),
    ensures
        borrow_totals(loans_a) == borrow_totals(loans_b),
{
    lemma_totals_of_permutation(loans_a, loans_b, debt_credit());
}

/// Adds up what each user supplies at the Unix time `now`: every pool counts
/// for its owner with its deposits, every loan for its lender with the
/// interest accrued so far. A loan that is over is not put to the accrual: it
/// counts with nothing, and its lender is listed all the same. A total that
/// does not fit in 64 bits fails the whole call.
pub fn tally_supply(pools: &Vec<Pool>, loans: &Vec<Loan>, now: i64) -> (tallied: Result<
    UserTotals,
    RainError,
>)
    ensures
        match tallied {
            Ok(totals) => {
                &&& totals.wf()
                &&& totals@ == supply_totals(pools@, loans@, now as int)
                &&& totals.users() == supply_users(pools@, loans@, now as int)
                &&& fits(supply_totals(pools@, loans@, now as int))
            },
            Err(error) => {
                &&& error == RainError::ArithmeticOverflow
                &&& !fits(supply_totals(pools@, loans@, now as int))
            },
        },
{
    let ghost by_pool = totals_of(pools@, pool_credit());
    let ghost by_loan = totals_of(loans@, interest_credit(now as int));
    let mut totals = UserTotals::new();
    let mut i: usize = 0;
    proof {
        lemma_totals_of_nothing(pools@.take(0), pool_credit());
    }
    while i < pools.len()
        invariant
            i <= pools@.len(),
            totals.wf(),
            totals@ == totals_of(pools@.take(i as int), pool_credit()),
            totals.users() == users_after(
                Seq::<Seq<u8>>::empty(),
                pools@.take(i as int),
                pool_credit(),
            ),
            by_pool == totals_of(pools@, pool_credit()),
            by_loan == totals_of(loans@, interest_credit(now as int)),
        decreases pools@.len() - i,
    {
        let pool = &pools[i];
        proof {
            lemma_totals_of_take(pools@, i as int, pool_credit());
            lemma_users_after_take(Seq::<Seq<u8>>::empty(), pools@, i as int, pool_credit());
            lemma_totals_of_grow(pools@, i + 1, pool_credit(), pool.owner@);
        }
        match totals.credit(&pool.owner, pool.total_amount) {
            Ok(()) => {},
            Err(error) => {
                proof {
                    let user = pool.owner@;
                    assert(by_pool.contains_key(user));
                    assert(supply_totals(pools@, loans@, now as int)[user] > u64::MAX);
                }
                return Err(error);
            },
        }
        i = i + 1;
    }
    proof {
        assert(pools@.take(i as int) =~= pools@);
        lemma_totals_of_nothing(loans@.take(0), interest_credit(now as int));
        lemma_merged_nothing(by_pool);
    }
    let ghost owners = users_after(Seq::<Seq<u8>>::empty(), pools@, pool_credit());
    let mut j: usize = 0;
    while j < loans.len()
        invariant
            j <= loans@.len(),
            totals.wf(),
            totals@ == merged(by_pool, totals_of(loans@.take(j as int), interest_credit(now as int))),
            totals.users() == users_after(owners, loans@.take(j as int), interest_credit(now as int)),
            owners == users_after(Seq::<Seq<u8>>::empty(), pools@, pool_credit()),
            by_pool == totals_of(pools@, pool_credit()),
            by_loan == totals_of(loans@, interest_credit(now as int)),
        decreases loans@.len() - j,
    {
        let loan = &loans[j];
        proof {
            lemma_totals_of_take(loans@, j as int, interest_credit(now as int));
            lemma_users_after_take(owners, loans@, j as int, interest_credit(now as int));
            lemma_totals_of_grow(loans@, j + 1, interest_credit(now as int), loan.lender@);
        }
        let accrued: u64 = if loan.status == LoanStatus::Ongoing {
            compute_dynamic_interest(loan, now)
        } else {
            0
        };
        proof {
            lemma_merged_credit(
                by_pool,
                totals_of(loans@.take(j as int), interest_credit(now as int)),
                loan.lender@,
                accrued as nat,
            );
        }
        match totals.credit(&loan.lender, accrued) {
            Ok(()) => {},
            Err(error) => {
                proof {
                    let user = loan.lender@;
                    assert(by_loan.contains_key(user));
                    assert(supply_totals(pools@, loans@, now as int)[user] > u64::MAX);
                }
                return Err(error);
            },
        }
        j = j + 1;
    }
    proof {
        assert(loans@.take(j as int) =~= loans@);
        totals.lemma_fits();
    }
    Ok(totals)
}

/// Adds up what each user has borrowed: every loan counts for its borrower
/// with its amount, whatever its status. A total that does not fit in 64
/// bits fails the whole call.
pub fn tally_borrow(loans: &Vec<Loan>) -> (tallied: Result<UserTotals, RainError>)
    ensures
        match tallied {
            Ok(totals) => {
                &&& totals.wf()
                &&& totals@ == borrow_totals(loans@)
                &&& totals.users() == borrow_users(loans@)
                &&& fits(borrow_totals(loans@))
            },
            Err(error) => {
                &&& error == RainError::ArithmeticOverflow
                &&& !fits(borrow_totals(loans@))
            },
        },
{
    let mut totals = UserTotals::new();
    let mut j: usize = 0;
    proof {
        lemma_totals_of_nothing(loans@.take(0), debt_credit());
    }
    while j < loans.len()
        invariant
            j <= loans@.len(),
            totals.wf(),
            totals@ == totals_of(loans@.take(j as int), debt_credit()),
            totals.users() == users_after(
                Seq::<Seq<u8>>::empty(),
                loans@.take(j as int),
                debt_credit(),
            ),
        decreases loans@.len() - j,
    {
        let loan = &loans[j];
        proof {
            lemma_totals_of_take(loans@, j as int, debt_credit());
            lemma_users_after_take(Seq::<Seq<u8>>::empty(), loans@, j as int, debt_credit());
            lemma_totals_of_grow(loans@, j + 1, debt_credit(), loan.borrower@);
        }
        match totals.credit(&loan.borrower, loan.amount) {
            Ok(()) => {},
            Err(error) => {
                proof {
                    let user = loan.borrower@;
                    assert(borrow_totals(loans@).contains_key(user));
                    assert(borrow_totals(loans@)[user] > u64::MAX);
                }
                return Err(error);
            },
        }
        j = j + 1;
    }
    proof {
        assert(loans@.take(j as int) =~= loans@);
        totals.lemma_fits();
    }
    Ok(totals)
}

} // verus!

//! The per-user aggregate: one running total for each user that was credited.

use vstd::prelude::*;
use crate::error::RainError;
use crate::identity::Identity;

verus! {

/// What `user` has in `totals`: nothing without an entry.
pub open spec fn total_in(totals: Map<Seq<u8>, nat>, user: Seq<u8>) -> nat {
    if totals.contains_key(user) {
        totals[user]
    } else {
        0
    }
}

/// `totals` after `amount` more has gone to `user`.
pub open spec fn with_credit(totals: Map<Seq<u8>, nat>, user: Seq<u8>, amount: nat) -> Map<
    Seq<u8>,
    nat,
> {
    totals.insert(user, total_in(totals, user) + amount)
}

/// `users` with `user` at the end, unless it is there already.
pub open spec fn with_user(users: Seq<Seq<u8>>, user: Seq<u8>) -> Seq<Seq<u8>> {
    if users.contains(user) {
        users
    } else {
        users.push(user)
    }
}

/// Whether every total fits in 64 bits.
pub open spec fn fits(totals: Map<Seq<u8>, nat>) -> bool {
    forall|user: Seq<u8>| totals.contains_key(user) ==> #[trigger] totals[user] <= u64::MAX
}

/// One user and what has been credited to that user.
#[derive(Clone, Copy, Debug, PartialEq, Eq)]
pub struct Entry {
    pub user: Identity,
    pub total: u64,
}

/// Running totals by user, one entry for each user, in the order in which the
/// users were first credited. The entries lie in a vector that is searched by
/// user, so that the rows of a view come out in a fixed order.
#[derive(Debug, PartialEq, Eq)]
pub struct UserTotals {
    pub entries: Vec<Entry>,
}

impl View for UserTotals {
    type V = Map<Seq<u8>, nat>;

    /// The totals as a map from a user's bytes to that user's total.
    open spec fn view(&self) -> Map<Seq<u8>, nat> {
        Map::new(|user: Seq<u8>| self.has(user), |user: Seq<u8>| self.total(user))
    }
}

impl UserTotals {
    /// No user has two entries.
    pub open spec fn wf(&self) -> bool {
        forall|i: int, j: int|
            0 <= i < j < self.entries@.len() ==> self.entries@[i].user@ != self.entries@[j].user@
    }

    /// The users that have an entry, in the order of the entries.
    pub open spec fn users(&self) -> Seq<Seq<u8>> {
        Seq::new(self.entries@.len(), |k: int| self.entries@[k].user@)
    }

    /// Whether `user` has an entry.
    pub open spec fn has(&self, user: Seq<u8>) -> bool {
        exists|k: int| 0 <= k < self.entries@.len() && #[trigger] self.entries@[k].user@ == user
    }

    /// Where the entry of `user` stands.
    pub open spec fn slot(&self, user: Seq<u8>) -> int {
        choose|k: int| 0 <= k < self.entries@.len() && #[trigger] self.entries@[k].user@ == user
    }

    /// What `user` has been credited: nothing without an entry.
    pub open spec fn total(&self, user: Seq<u8>) -> nat {
        if self.has(user) {
            self.entries@[self.slot(user)].total as nat
        } else {
            0
        }
    }

    /// In well-formed totals the entry at `k` is the one of its user.
    pub proof fn lemma_slot(&self, k: int)
        requires
            self.wf(),
            0 <= k < self.entries@.len(),
        ensures
            self.has(self.entries@[k].user@),
            self.slot(self.entries@[k].user@) == k,
            self@.contains_key(self.entries@[k].user@),
            self@[self.entries@[k].user@] == self.entries@[k].total,
            self.total(self.entries@[k].user@) == self.entries@[k].total,
    {
        let user = self.entries@[k].user@;
        assert(self.has(user));
        let found = self.slot(user);
        assert(0 <= found < self.entries@.len() && self.entries@[found].user@ == user);
        if found < k {
            assert(self.entries@[found].user@ != self.entries@[k].user@);
        } else if k < found {
            assert(self.entries@[k].user@ != self.entries@[found].user@);
        }
    }

    /// The users with an entry are those with a total.
    pub proof fn lemma_users(&self)
        ensures
            self.users().len() == self.entries@.len(),
            forall|user: Seq<u8>| self.users().contains(user) <==> self@.contains_key(user),
            self.wf() ==> self.users().no_duplicates(),
    {
        let users = self.users();
        assert forall|user: Seq<u8>| users.contains(user) <==> self@.contains_key(user) by {
            if users.contains(user) {
                let k = choose|k: int| 0 <= k < users.len() && users[k] == user;
                assert(self.entries@[k].user@ == user);
            }
            if self.has(user) {
                let k = self.slot(user);
                assert(users[k] == user);
            }
        }
    }

    /// Every total that is held fits in 64 bits.
    pub proof fn lemma_fits(&self)
        requires
            self.wf(),
        ensures
            fits(self@),
    {
        assert forall|user: Seq<u8>| self@.contains_key(user) implies #[trigger] self@[user]
            <= u64::MAX by {
            let at = self.slot(user);
            self.lemma_slot(at);
        }
    }

    /// Totals in which nobody has been credited.
    pub fn new() -> (totals: UserTotals)
        ensures
            totals.wf(),
            totals.entries@.len() == 0,
            totals@ == Map::<Seq<u8>, nat>::empty(),
            totals.users() == Seq::<Seq<u8>>::empty(),
    {
        let totals = UserTotals { entries: Vec::new() };
        proof {
            assert(totals@ =~= Map::<Seq<u8>, nat>::empty());
            assert(totals.users() =~= Seq::<Seq<u8>>::empty());
        }
        totals
    }

    /// How many users have been credited.
    pub fn len(&self) -> (count: usize)
        ensures
            count == self.entries@.len(),
    {
        self.entries.len()
    }

    /// What `user` has been credited, if anything was.
    pub fn get(&self, user: &Identity) -> (total: Option<u64>)
        requires
            self.wf(),
        ensures
            total is Some <==> self@.contains_key(user@),
            total is Some ==> total.unwrap() as nat == self@[user@],
    {
        let mut k: usize = 0;
        while k < self.entries.len()
            invariant
                self.wf(),
                k <= self.entries@.len(),
                forall|j: int| 0 <= j < k ==> self.entries@[j].user@ != user@,
            decreases self.entries@.len() - k,
        {
            if self.entries[k].user.same(user) {
                proof {
                    self.lemma_slot(k as int);
                }
                return Some(self.entries[k].total);
            }
            k = k + 1;
        }
        None
    }

    /// Adds `amount` to the total of `user`, with a new entry for a user who
    /// had none: also when the amount is zero. A total that would pass 64 bits
    /// is refused, and nothing changes.
    pub fn credit(&mut self, user: &Identity, amount: u64) -> (done: Result<(), RainError>)
        requires
            old(self).wf(),
        ensures
            final(self).wf(),
            match done {
                Ok(()) => {
                    &&& total_in(old(self)@, user@) + amount <= u64::MAX
                    &&& final(self)@ == with_credit(old(self)@, user@, amount as nat)
                    &&& final(self).users() == with_user(old(self).users(), user@)
                },
                Err(error) => {
                    &&& error == RainError::ArithmeticOverflow
                    &&& total_in(old(self)@, user@) + amount > u64::MAX
                    &&& *final(self) == *old(self)
                },
            },
    {
        let ghost before = *self;
        let mut k: usize = 0;
        while k < self.entries.len()
            invariant
                *self == before,
                before == *old(self),
                self.wf(),
                k <= self.entries@.len(),
                forall|j: int| 0 <= j < k ==> self.entries@[j].user@ != user@,
            decreases self.entries@.len() - k,
        {
            if self.entries[k].user.same(user) {
                let current: u64 = self.entries[k].total;
                proof {
                    before.lemma_slot(k as int);
                }
                if amount > u64::MAX - current {
                    return Err(RainError::ArithmeticOverflow);
                }
                let entry = Entry { user: self.entries[k].user, total: current + amount };
                self.entries.set(k, entry);
                proof {
                    assert(self.wf());
                    self.lemma_slot(k as int);
                    assert forall|other: Seq<u8>| self.has(other) == before.has(other) by {
                        if before.has(other) {
                            let at = before.slot(other);
                            assert(self.entries@[at].user@ == other);
                        }
                        if self.has(other) {
                            let at = self.slot(other);
                            assert(before.entries@[at].user@ == other);
                        }
                    }
                    assert forall|other: Seq<u8>| other != user@ && before.has(other) implies self@[other]
                        == before@[other] by {
                        let at = before.slot(other);
                        before.lemma_slot(at);
                        self.lemma_slot(at);
                    }
                    assert(self@ =~= before@.insert(user@, (current + amount) as nat));
                    before.lemma_users();
                    assert(self.users() =~= before.users());
                }
                return Ok(());
            }
            k = k + 1;
        }
        proof {
            assert(!before.has(user@));
        }
        self.entries.push(Entry { user: *user, total: amount });
        proof {
            let last = self.entries@.len() - 1;
            assert(self.entries@[last].user@ == user@);
            assert(self.wf());
            self.lemma_slot(last);
            assert forall|other: Seq<u8>| other != user@ implies self.has(other) == before.has(
                other,
            ) by {
                if before.has(other) {
                    let at = before.slot(other);
                    assert(self.entries@[at].user@ == other);
                }
                if self.has(other) {
                    let at = self.slot(other);
                    assert(before.entries@[at].user@ == other);
                }
            }
            assert forall|other: Seq<u8>| other != user@ && before.has(other) implies self@[other]
                == before@[other] by {
                let at = before.slot(other);
                before.lemma_slot(at);
                self.lemma_slot(at);
            }
            assert(self@ =~= before@.insert(user@, amount as nat));
            before.lemma_users();
            assert(self.users() =~= before.users().push(user@));
        }
        Ok(())
    }
}

} // verus!

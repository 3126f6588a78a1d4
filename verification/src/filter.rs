//! The byte filters by which records are selected where they are stored.
//!
//! A filter names an offset into a tagged record and the bytes that must
//! stand there. Whoever fetches the records applies the filters; this module
//! says which filters a query needs and what they select.

use vstd::prelude::*;
use crate::identity::Identity;
use crate::state::{loan_tag, pool_tag, Loan, LoanStatus, Pool};

verus! {

/// Where the tag of a record stands.
pub const TAG_OFFSET: usize = 0;

/// Where the currency of a pool stands in its tagged record.
pub const POOL_CURRENCY_OFFSET: usize = 41;

/// Where the currency of a loan stands in its tagged record.
pub const LOAN_CURRENCY_OFFSET: usize = 138;

/// Where the status of a loan stands in its tagged record.
pub const LOAN_STATUS_OFFSET: usize = 9;

/// The demand that a record holds `bytes` from `offset` on.
#[derive(Debug, PartialEq, Eq)]
pub struct ByteFilter {
    pub offset: usize,
    pub bytes: Vec<u8>,
}

impl ByteFilter {
    /// Whether `record` holds the filter's bytes at the filter's offset.
    pub open spec fn matches(&self, record: Seq<u8>) -> bool {
        &&& self.offset + self.bytes@.len() <= record.len()
        &&& record.subrange(self.offset as int, self.offset + self.bytes@.len()) == self.bytes@
    }

    /// Whether `record` holds the filter's bytes at the filter's offset.
    pub fn accepts(&self, record: &[u8]) -> (accepted: bool)
        ensures
            accepted == self.matches(record@),
    {
        let width: usize = self.bytes.len();
        let len: usize = record.len();
        if self.offset > len || width > len - self.offset {
            return false;
        }
        let mut k: usize = 0;
        while k < width
            invariant
                k <= width,
                width == self.bytes@.len(),
                len == record@.len(),
                self.offset + width <= len,
                forall|j: int| 0 <= j < k ==> record@[self.offset + j] == self.bytes@[j],
            decreases width - k,
        {
            if record[self.offset + k] != self.bytes[k] {
                proof {
                    let part = record@.subrange(self.offset as int, self.offset + width);
                    assert(part[k as int] != self.bytes@[k as int]);
                }
                return false;
            }
            k = k + 1;
        }
        proof {
            assert(record@.subrange(self.offset as int, self.offset + width) =~= self.bytes@);
        }
        true
    }
}

/// Whether `record` passes every filter.
pub open spec fn all_match(filters: Seq<ByteFilter>, record: Seq<u8>) -> bool {
    forall|i: int| 0 <= i < filters.len() ==> (#[trigger] filters[i]).matches(record)
}

/// Whether `record` passes every filter.
pub fn accepts_all(filters: &Vec<ByteFilter>, record: &[u8]) -> (accepted: bool)
    ensures
        accepted == all_match(filters@, record@),
{
    let mut i: usize = 0;
    while i < filters.len()
        invariant
            i <= filters@.len(),
            forall|k: int| 0 <= k < i ==> (#[trigger] filters@[k]).matches(record@),
        decreases filters@.len() - i,
    {
        if !filters[i].accepts(record) {
            return false;
        }
        i = i + 1;
    }
    true
}

/// Whether `filters` are those for the pools of `currency`: the pool tag at
/// the front, and the currency where a pool holds it.
pub open spec fn is_pool_filters(filters: Seq<ByteFilter>, currency: Seq<u8>) -> bool {
    &&& filters.len() == 2
    &&& filters[0].offset == TAG_OFFSET
    &&& filters[0].bytes@ == pool_tag()
    &&& filters[1].offset == POOL_CURRENCY_OFFSET
    &&& filters[1].bytes@ == currency
}

/// Whether `filters` are those for the loans of `currency`: the loan tag at
/// the front, and the currency where a loan holds it.
pub open spec fn is_loan_filters(filters: Seq<ByteFilter>, currency: Seq<u8>) -> bool {
    &&& filters.len() == 2
    &&& filters[0].offset == TAG_OFFSET
    &&& filters[0].bytes@ == loan_tag()
    &&& filters[1].offset == LOAN_CURRENCY_OFFSET
    &&& filters[1].bytes@ == currency
}

/// Whether `filters` are those for the ongoing loans of `currency`: the two
/// for its loans, and the status byte of an ongoing loan where a loan holds
/// its status.
pub open spec fn is_ongoing_loan_filters(filters: Seq<ByteFilter>, currency: Seq<u8>) -> bool {
    &&& filters.len() == 3
    &&& is_loan_filters(filters.take(2), currency)
    &&& filters[2].offset == LOAN_STATUS_OFFSET
    &&& filters[2].bytes@ == seq![LoanStatus::Ongoing.spec_to_byte()]
}

/// The filters that select the pools of `currency`.
pub fn pool_filters(currency: &Identity) -> (filters: Vec<ByteFilter>)
    ensures
        is_pool_filters(filters@, currency@),
{
    let mut filters: Vec<ByteFilter> = Vec::new();
    filters.push(bytes_at(TAG_OFFSET, Pool::discriminator().as_slice()));
    filters.push(bytes_at(POOL_CURRENCY_OFFSET, currency.bytes.as_slice()));
    filters
}

/// The filters that select the loans of `currency`, whatever their status.
pub fn loan_filters(currency: &Identity) -> (filters: Vec<ByteFilter>)
    ensures
        is_loan_filters(filters@, currency@),
{
    let mut filters: Vec<ByteFilter> = Vec::new();
    filters.push(bytes_at(TAG_OFFSET, Loan::discriminator().as_slice()));
    filters.push(bytes_at(LOAN_CURRENCY_OFFSET, currency.bytes.as_slice()));
    filters
}

/// The filters that select the ongoing loans of `currency`.
pub fn ongoing_loan_filters(currency: &Identity) -> (filters: Vec<ByteFilter>)
    ensures
        is_ongoing_loan_filters(filters@, currency@),
{
    let mut filters = loan_filters(currency);
    let ghost both = filters@;
    let mut status: Vec<u8> = Vec::new();
    status.push(LoanStatus::Ongoing.to_byte());
    proof {
        assert(status@ =~= seq![LoanStatus::Ongoing.spec_to_byte()]);
    }
    filters.push(ByteFilter { offset: LOAN_STATUS_OFFSET, bytes: status });
    proof {
        assert(filters@.take(2) =~= both);
    }
    filters
}

/// The filter that asks for `bytes` at `offset`.
pub fn bytes_at(offset: usize, bytes: &[u8]) -> (filter: ByteFilter)
    ensures
        filter.offset == offset,
        filter.bytes@ == bytes@,
{
    let mut copy: Vec<u8> = Vec::new();
    copy.extend_from_slice(bytes);
    ByteFilter { offset, bytes: copy }
}

/// The pool filters let a pool's record through exactly when the record
/// carries the pool tag and the pool is of the currency asked for.
pub proof fn lemma_pool_filters_select(
    filters: Seq<ByteFilter>,
    currency: Identity,
    pool: Pool,
    record: Seq<u8>,
)
    requires
        is_pool_filters(filters, currency@),
        pool.decodes_from(record),
    ensures
        all_match(filters, record) <==> record.subrange(0, 8) == pool_tag() && pool.currency@
            == currency@,
{
    assert(pool_tag().len() == 8);
    assert(pool.currency@.len() == 32 && currency@.len() == 32);
    if record.subrange(0, 8) == pool_tag() && pool.currency@ == currency@ {
        assert(filters[0].matches(record));
        assert(filters[1].matches(record));
    }
    if all_match(filters, record) {
        assert(filters[0].matches(record));
        assert(filters[1].matches(record));
    }
}

/// The loan filters let a loan's record through exactly when the record
/// carries the loan tag and the loan is of the currency asked for.
pub proof fn lemma_loan_filters_select(
    filters: Seq<ByteFilter>,
    currency: Identity,
    loan: Loan,
    record: Seq<u8>,
)
    requires
        is_loan_filters(filters, currency@),
        loan.decodes_from(record),
    ensures
        all_match(filters, record) <==> record.subrange(0, 8) == loan_tag() && loan.currency@
            == currency@,
{
    assert(loan_tag().len() == 8);
    assert(loan.currency@.len() == 32 && currency@.len() == 32);
    if record.subrange(0, 8) == loan_tag() && loan.currency@ == currency@ {
        assert(filters[0].matches(record));
        assert(filters[1].matches(record));
    }
    if all_match(filters, record) {
        assert(filters[0].matches(record));
        assert(filters[1].matches(record));
    }
}

/// The filters for ongoing loans let a loan's record through exactly when
/// the record carries the loan tag and the loan is ongoing and of the
/// currency asked for.
pub proof fn lemma_ongoing_loan_filters_select(
    filters: Seq<ByteFilter>,
    currency: Identity,
    loan: Loan,
    record: Seq<u8>,
)
    requires
        is_ongoing_loan_filters(filters, currency@),
        loan.decodes_from(record),
    ensures
        all_match(filters, record) <==> record.subrange(0, 8) == loan_tag() && loan.currency@
            == currency@ && loan.status == LoanStatus::Ongoing,
{
    let both = filters.take(2);
    lemma_loan_filters_select(both, currency, loan, record);
    let status = seq![LoanStatus::Ongoing.spec_to_byte()];
    assert(status.len() == 1 && status[0] == 1);
    assert(record.subrange(9, 10)[0] == record[9]);
    if filters[2].matches(record) {
        assert(record[9] == 1);
    }
    if loan.status == LoanStatus::Ongoing {
        assert(record.subrange(9, 10) =~= status);
    }
    if all_match(filters, record) {
        assert(filters[2].matches(record));
        assert forall|i: int| 0 <= i < both.len() implies (#[trigger] both[i]).matches(record) by {
            assert(both[i] == filters[i]);
            assert(filters[i].matches(record));
        }
    }
    if all_match(both, record) && filters[2].matches(record) {
        assert forall|i: int| 0 <= i < filters.len() implies (#[trigger] filters[i]).matches(
            record,
        ) by {
            if i < 2 {
                assert(both[i] == filters[i]);
                assert(both[i].matches(record));
            }
        }
    }
}

} // verus!

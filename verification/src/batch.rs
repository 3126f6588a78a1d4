//! Decoding a batch of buffers: all of them, or the first failure.

use vstd::prelude::*;
use crate::error::DecodeError;
use crate::state::{Loan, Pool};
use crate::sums::{any_of, lemma_any_of_permutation, lemma_map_permutation};

verus! {

/// A record that can be read from a tagged buffer.
pub trait Record: Sized {
    /// What reading a buffer gives: the record, or the reason why the buffer
    /// holds none.
    spec fn spec_read(buf: Seq<u8>) -> Result<Self, DecodeError>;

    /// Reads a record from a tagged buffer.
    fn read(buf: &[u8]) -> (decoded: Result<Self, DecodeError>)
        ensures
            decoded == Self::spec_read(buf@),
    ;
}

impl Record for Pool {
    open spec fn spec_read(buf: Seq<u8>) -> Result<Pool, DecodeError> {
        Pool::spec_decode(buf)
    }

    fn read(buf: &[u8]) -> (decoded: Result<Pool, DecodeError>) {
        Pool::decode(buf)
    }
}

impl Record for Loan {
    open spec fn spec_read(buf: Seq<u8>) -> Result<Loan, DecodeError> {
        Loan::spec_decode(buf)
    }

    fn read(buf: &[u8]) -> (decoded: Result<Loan, DecodeError>) {
        Loan::decode(buf)
    }
}

/// The buffers as byte sequences.
pub open spec fn buffers(accounts: Seq<Vec<u8>>) -> Seq<Seq<u8>> {
    Seq::new(accounts.len(), |i: int| accounts[i]@)
}

/// What decoding a batch of buffers gives: the records in the order of their
/// buffers, or the error of the first buffer that holds none.
pub open spec fn spec_decode_batch<T: Record>(raw: Seq<Seq<u8>>) -> Result<Seq<T>, DecodeError>
    decreases raw.len(),
{
    if raw.len() == 0 {
        Ok(Seq::empty())
    } else {
        match spec_decode_batch::<T>(raw.drop_last()) {
            Err(error) => Err(error),
            Ok(front) => match T::spec_read(raw.last()) {
                Err(error) => Err(error),
                Ok(record) => Ok(front.push(record)),
            },
        }
    }
}

/// What decoding a batch of pool buffers gives.
pub open spec fn spec_decode_pools(raw: Seq<Seq<u8>>) -> Result<Seq<Pool>, DecodeError> {
    spec_decode_batch::<Pool>(raw)
}

/// What decoding a batch of loan buffers gives.
pub open spec fn spec_decode_loans(raw: Seq<Seq<u8>>) -> Result<Seq<Loan>, DecodeError> {
    spec_decode_batch::<Loan>(raw)
}

/// The record that a buffer holds.
pub open spec fn record_in<T: Record>() -> spec_fn(Seq<u8>) -> T {
    |buf: Seq<u8>| T::spec_read(buf).unwrap()
}

/// Whether a buffer holds no record.
pub open spec fn no_record<T: Record>() -> spec_fn(Seq<u8>) -> bool {
    |buf: Seq<u8>| T::spec_read(buf) is Err
}

/// A batch decodes when each buffer does, to the records of the buffers one
/// by one; it fails with the error of the buffer before which all decode and
/// which does not.
pub proof fn lemma_decode_batch_each<T: Record>(raw: Seq<Seq<u8>>)
    ensures
        match spec_decode_batch::<T>(raw) {
            Ok(records) => {
                &&& records.len() == raw.len()
                &&& forall|i: int|
                    0 <= i < raw.len() ==> T::spec_read(#[trigger] raw[i]) == Ok::<T, DecodeError>(
                        records[i],
                    )
            },
            Err(error) => exists|at: int|
                {
                    &&& 0 <= at < raw.len()
                    &&& T::spec_read(#[trigger] raw[at]) == Err::<T, DecodeError>(error)
                    &&& forall|i: int| 0 <= i < at ==> T::spec_read(#[trigger] raw[i]) is Ok
                },
        },
    decreases raw.len(),
{
    if raw.len() > 0 {
        let front = raw.drop_last();
        lemma_decode_batch_each::<T>(front);
        match spec_decode_batch::<T>(front) {
            Err(error) => {
                let at = choose|at: int|
                    {
                        &&& 0 <= at < front.len()
                        &&& T::spec_read(#[trigger] front[at]) == Err::<T, DecodeError>(error)
                        &&& forall|i: int| 0 <= i < at ==> T::spec_read(#[trigger] front[i]) is Ok
                    };
                assert(raw[at] == front[at]);
                assert forall|i: int| 0 <= i < at implies T::spec_read(#[trigger] raw[i]) is Ok by {
                    assert(raw[i] == front[i]);
                }
            },
            Ok(records) => {
                assert forall|i: int| 0 <= i < front.len() implies T::spec_read(
                    #[trigger] raw[i],
                ) == Ok::<T, DecodeError>(records[i]) by {
                    assert(raw[i] == front[i]);
                }
                match T::spec_read(raw.last()) {
                    Err(error) => {
                        let at = raw.len() - 1;
                        assert(T::spec_read(raw[at]) == Err::<T, DecodeError>(error));
                    },
                    Ok(record) => {},
                }
            },
        }
    }
}

/// A batch decodes exactly when no buffer fails, to the records that the
/// buffers hold.
pub proof fn lemma_decode_batch_all<T: Record>(raw: Seq<Seq<u8>>)
    ensures
        spec_decode_batch::<T>(raw) is Ok <==> !any_of(raw, no_record::<T>()),
        spec_decode_batch::<T>(raw) is Ok ==> spec_decode_batch::<T>(raw).unwrap()
            == raw.map_values(record_in::<T>()),
{
    lemma_decode_batch_each::<T>(raw);
    match spec_decode_batch::<T>(raw) {
        Ok(records) => {
            assert(records =~= raw.map_values(record_in::<T>()));
        },
        Err(error) => {
            let at = choose|at: int|
                0 <= at < raw.len() && T::spec_read(#[trigger] raw[at]) == Err::<T, DecodeError>(
                    error,
                );
            assert(no_record::<T>()(raw[at]));
        },
    }
}

/// A batch whose first buffers fail, fails as they do.
pub proof fn lemma_decode_batch_stays_failed<T: Record>(raw: Seq<Seq<u8>>, n: int)
    requires
        0 <= n <= raw.len(),
        spec_decode_batch::<T>(raw.take(n)) is Err,
    ensures
        spec_decode_batch::<T>(raw) == spec_decode_batch::<T>(raw.take(n)),
    decreases raw.len() - n,
{
    if n < raw.len() {
        assert(raw.take(n + 1).drop_last() =~= raw.take(n));
        lemma_decode_batch_stays_failed::<T>(raw, n + 1);
    } else {
        assert(raw.take(n) =~= raw);
    }
}

/// Whether a batch decodes does not depend on the order of the buffers, and
/// where it does, the same buffers in another order give the same records in
/// another order.
pub proof fn lemma_decode_batch_permutation<T: Record>(raw_a: Seq<Seq<u8>>, raw_b: Seq<Seq<u8>>)
    requires
        raw_a.to_multiset() == raw_b.to_multiset(),
    ensures
        spec_decode_batch::<T>(raw_a) is Ok <==> spec_decode_batch::<T>(raw_b) is Ok,
        spec_decode_batch::<T>(raw_a) is Ok ==> spec_decode_batch::<T>(
            raw_a,
        ).unwrap().to_multiset() == spec_decode_batch::<T>(raw_b).unwrap().to_multiset(),
{
    lemma_decode_batch_all::<T>(raw_a);
    lemma_decode_batch_all::<T>(raw_b);
    lemma_any_of_permutation(raw_a, raw_b, no_record::<T>());
    lemma_map_permutation(raw_a, raw_b, record_in::<T>());
}

/// Decodes every buffer as a record. The first buffer that holds none fails
/// the batch, and nothing of it is handed out.
pub fn decode_batch<T: Record>(accounts: &Vec<Vec<u8>>) -> (decoded: Result<Vec<T>, DecodeError>)
    ensures
        match decoded {
            Ok(records) => spec_decode_batch::<T>(buffers(accounts@)) == Ok::<
                Seq<T>,
                DecodeError,
            >(records@),
            Err(error) => spec_decode_batch::<T>(buffers(accounts@)) == Err::<
                Seq<T>,
                DecodeError,
            >(error),
        },
{
    let ghost raw = buffers(accounts@);
    let mut records: Vec<T> = Vec::new();
    let mut i: usize = 0;
    while i < accounts.len()
        invariant
            i <= accounts@.len(),
            raw == buffers(accounts@),
            spec_decode_batch::<T>(raw.take(i as int)) == Ok::<Seq<T>, DecodeError>(records@),
        decreases accounts@.len() - i,
    {
        proof {
            assert(raw.take(i + 1).drop_last() =~= raw.take(i as int));
            assert(raw.take(i + 1).last() == accounts@[i as int]@);
        }
        match T::read(accounts[i].as_slice()) {
            Ok(record) => {
                records.push(record);
            },
            Err(error) => {
                proof {
                    lemma_decode_batch_stays_failed::<T>(raw, i + 1);
                }
                return Err(error);
            },
        }
        i = i + 1;
    }
    proof {
        assert(raw.take(i as int) =~= raw);
    }
    Ok(records)
}

/// Decodes every buffer as a pool. The first buffer that is not a pool fails
/// the batch, and nothing of it is handed out.
pub fn decode_pools(accounts: &Vec<Vec<u8>>) -> (decoded: Result<Vec<Pool>, DecodeError>)
    ensures
        match decoded {
            Ok(pools) => spec_decode_pools(buffers(accounts@)) == Ok::<Seq<Pool>, DecodeError>(
                pools@,
            ),
            Err(error) => spec_decode_pools(buffers(accounts@)) == Err::<Seq<Pool>, DecodeError>(
                error,
            ),
        },
{
    decode_batch::<Pool>(accounts)
}

/// Decodes every buffer as a loan. The first buffer that is not a loan fails
/// the batch, and nothing of it is handed out.
pub fn decode_loans(accounts: &Vec<Vec<u8>>) -> (decoded: Result<Vec<Loan>, DecodeError>)
    ensures
        match decoded {
            Ok(loans) => spec_decode_loans(buffers(accounts@)) == Ok::<Seq<Loan>, DecodeError>(
                loans@,
            ),
            Err(error) => spec_decode_loans(buffers(accounts@)) == Err::<Seq<Loan>, DecodeError>(
                error,
            ),
        },
{
    decode_batch::<Loan>(accounts)
}

} // verus!

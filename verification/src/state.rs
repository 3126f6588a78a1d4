//! The two records of the lending market, a pool and a loan, and how each
//! lies in a tagged buffer.

use vstd::prelude::*;
use crate::error::DecodeError;
use crate::identity::Identity;
use crate::wire::{
    le_bytes, le_value, lemma_array_exists, lemma_le_bytes_len, lemma_le_bytes_of_value,
    lemma_le_limits, lemma_le_value_bound, lemma_le_value_of_bytes, read_array, read_le, write_le,
};

verus! {

/// How many bytes the record-type tag takes at the front of every buffer.
pub const TAG_LEN: usize = 8;

/// How many bytes a pool record takes, its tag included.
pub const POOL_LEN: usize = 172;

/// The tag that marks a buffer as a pool record.
pub open spec fn pool_tag() -> Seq<u8> {
    seq![241u8, 154u8, 109u8, 4u8, 17u8, 177u8, 109u8, 188u8]
}

/// The capital that one user has put into a pool of one currency.
#[derive(Clone, Copy, Debug, PartialEq, Eq)]
pub struct Pool {
    pub bump: u8,
    pub owner: Identity,
    pub currency: Identity,
    pub padding: [u8; 64],
    pub padding1: [u8; 3],
    pub total_amount: u64,
    pub borrowed_amount: u64,
    pub available_amount: u64,
    pub usable_amount: u64,
}

impl Pool {
    /// The tag that marks a buffer as a pool record.
    pub fn discriminator() -> (tag: [u8; 8])
        ensures
            tag@ == pool_tag(),
    {
        let tag: [u8; 8] = [241, 154, 109, 4, 17, 177, 109, 188];
        proof {
            assert(tag@ =~= pool_tag());
        }
        tag
    }

    /// The layout: which bytes of a tagged buffer hold which field. The tag
    /// itself, bytes 0 to 7, is not looked at.
    pub open spec fn decodes_from(self, buf: Seq<u8>) -> bool {
        &&& buf.len() == POOL_LEN
        &&& self.bump == buf[8]
        &&& self.owner@ == buf.subrange(9, 41)
        &&& self.currency@ == buf.subrange(41, 73)
        &&& self.padding@ == buf.subrange(73, 137)
        &&& self.padding1@ == buf.subrange(137, 140)
        &&& self.total_amount as nat == le_value(buf.subrange(140, 148))
        &&& self.borrowed_amount as nat == le_value(buf.subrange(148, 156))
        &&& self.available_amount as nat == le_value(buf.subrange(156, 164))
        &&& self.usable_amount as nat == le_value(buf.subrange(164, 172))
    }

    /// What decoding a buffer gives: the pool that the layout reads from it,
    /// or the reason why there is none. Every byte after the tag belongs to
    /// some field, and every value of a field is allowed, so only the length
    /// can be wrong.
    pub open spec fn spec_decode(buf: Seq<u8>) -> Result<Pool, DecodeError> {
        if buf.len() != POOL_LEN {
            Err(DecodeError::BadLength)
        } else {
            Ok(choose|pool: Pool| pool.decodes_from(buf))
        }
    }

    /// The bytes of the record, tag first.
    pub open spec fn spec_encode(self) -> Seq<u8> {
        pool_tag() + seq![self.bump] + self.owner@ + self.currency@ + self.padding@
            + self.padding1@ + le_bytes(self.total_amount as nat, 8) + le_bytes(
            self.borrowed_amount as nat,
            8,
        ) + le_bytes(self.available_amount as nat, 8) + le_bytes(self.usable_amount as nat, 8)
    }

    /// Reads a pool from a tagged buffer. The buffer must be exactly one
    /// record long; the tag is skipped, not compared.
    pub fn decode(buf: &[u8]) -> (decoded: Result<Pool, DecodeError>)
        ensures
            decoded == Pool::spec_decode(buf@),
            match decoded {
                Ok(pool) => pool.decodes_from(buf@),
                Err(error) => error == DecodeError::BadLength && buf@.len() != POOL_LEN,
            },
    {
        if buf.len() != POOL_LEN {
            return Err(DecodeError::BadLength);
        }
        let pool = Pool {
            bump: buf[8],
            owner: Identity::new(read_array::<32>(buf, 9)),
            currency: Identity::new(read_array::<32>(buf, 41)),
            padding: read_array::<64>(buf, 73),
            padding1: read_array::<3>(buf, 137),
            total_amount: read_le(buf, 140, 8),
            borrowed_amount: read_le(buf, 148, 8),
            available_amount: read_le(buf, 156, 8),
            usable_amount: read_le(buf, 164, 8),
        };
        proof {
            assert(pool.decodes_from(buf@));
            lemma_pool_decodes_once(pool, choose|other: Pool| other.decodes_from(buf@), buf@);
        }
        Ok(pool)
    }

    /// Writes the record as a tagged buffer.
    pub fn encode(&self) -> (out: Vec<u8>)
        ensures
            out@ == self.spec_encode(),
    {
        let tag = Pool::discriminator();
        let mut out: Vec<u8> = Vec::new();
        out.extend_from_slice(tag.as_slice());
        out.push(self.bump);
        out.extend_from_slice(self.owner.bytes.as_slice());
        out.extend_from_slice(self.currency.bytes.as_slice());
        out.extend_from_slice(self.padding.as_slice());
        out.extend_from_slice(self.padding1.as_slice());
        write_le(&mut out, self.total_amount, 8);
        write_le(&mut out, self.borrowed_amount, 8);
        write_le(&mut out, self.available_amount, 8);
        write_le(&mut out, self.usable_amount, 8);
        proof {
            assert(out@ =~= self.spec_encode());
        }
        out
    }
}

/// A buffer holds at most one pool.
pub proof fn lemma_pool_decodes_once(a: Pool, b: Pool, buf: Seq<u8>)
    requires
        a.decodes_from(buf),
        b.decodes_from(buf),
    ensures
        a == b,
{
    assert(a.owner.bytes =~= b.owner.bytes);
    assert(a.currency.bytes =~= b.currency.bytes);
    assert(a.padding =~= b.padding);
    assert(a.padding1 =~= b.padding1);
}

/// Encoding a pool and decoding the bytes gives the same pool, field for
/// field.
pub proof fn lemma_pool_round_trip(pool: Pool)
    ensures
        pool.spec_encode().len() == POOL_LEN,
        pool.spec_encode().subrange(0, TAG_LEN as int) == pool_tag(),
        pool.decodes_from(pool.spec_encode()),
        Pool::spec_decode(pool.spec_encode()) == Ok::<Pool, DecodeError>(pool),
{
    let buf = pool.spec_encode();
    lemma_le_limits();
    lemma_le_bytes_len(pool.total_amount as nat, 8);
    lemma_le_bytes_len(pool.borrowed_amount as nat, 8);
    lemma_le_bytes_len(pool.available_amount as nat, 8);
    lemma_le_bytes_len(pool.usable_amount as nat, 8);
    lemma_le_value_of_bytes(pool.total_amount as nat, 8);
    lemma_le_value_of_bytes(pool.borrowed_amount as nat, 8);
    lemma_le_value_of_bytes(pool.available_amount as nat, 8);
    lemma_le_value_of_bytes(pool.usable_amount as nat, 8);
    assert(buf.len() == POOL_LEN);
    assert(buf.subrange(0, 8) =~= pool_tag());
    assert(buf.subrange(9, 41) =~= pool.owner@);
    assert(buf.subrange(41, 73) =~= pool.currency@);
    assert(buf.subrange(73, 137) =~= pool.padding@);
    assert(buf.subrange(137, 140) =~= pool.padding1@);
    assert(buf.subrange(140, 148) =~= le_bytes(pool.total_amount as nat, 8));
    assert(buf.subrange(148, 156) =~= le_bytes(pool.borrowed_amount as nat, 8));
    assert(buf.subrange(156, 164) =~= le_bytes(pool.available_amount as nat, 8));
    assert(buf.subrange(164, 172) =~= le_bytes(pool.usable_amount as nat, 8));
    assert(pool.decodes_from(buf));
    lemma_pool_decodes_once(pool, choose|other: Pool| other.decodes_from(buf), buf);
}

/// Decoding a buffer and encoding the pool gives the buffer back, but for
/// its tag, which decoding does not read and encoding sets.
pub proof fn lemma_pool_encode_of_decoded(pool: Pool, buf: Seq<u8>)
    requires
        pool.decodes_from(buf),
    ensures
        pool.spec_encode() == pool_tag() + buf.skip(TAG_LEN as int),
{
    lemma_pool_round_trip(pool);
    let enc = pool.spec_encode();
    lemma_le_bytes_of_value(buf.subrange(140, 148));
    lemma_le_bytes_of_value(buf.subrange(148, 156));
    lemma_le_bytes_of_value(buf.subrange(156, 164));
    lemma_le_bytes_of_value(buf.subrange(164, 172));
    lemma_le_bytes_of_value(enc.subrange(140, 148));
    lemma_le_bytes_of_value(enc.subrange(148, 156));
    lemma_le_bytes_of_value(enc.subrange(156, 164));
    lemma_le_bytes_of_value(enc.subrange(164, 172));
    let want = pool_tag() + buf.skip(8);
    assert forall|i: int| 0 <= i < 172 implies enc[i] == want[i] by {
        if i < 8 {
            assert(enc[i] == enc.subrange(0, 8)[i]);
        } else if i < 9 {
        } else if i < 41 {
            assert(enc[i] == enc.subrange(9, 41)[i - 9]);
            assert(buf[i] == buf.subrange(9, 41)[i - 9]);
        } else if i < 73 {
            assert(enc[i] == enc.subrange(41, 73)[i - 41]);
            assert(buf[i] == buf.subrange(41, 73)[i - 41]);
        } else if i < 137 {
            assert(enc[i] == enc.subrange(73, 137)[i - 73]);
            assert(buf[i] == buf.subrange(73, 137)[i - 73]);
        } else if i < 140 {
            assert(enc[i] == enc.subrange(137, 140)[i - 137]);
            assert(buf[i] == buf.subrange(137, 140)[i - 137]);
        } else if i < 148 {
            assert(enc[i] == enc.subrange(140, 148)[i - 140]);
            assert(buf[i] == buf.subrange(140, 148)[i - 140]);
        } else if i < 156 {
            assert(enc[i] == enc.subrange(148, 156)[i - 148]);
            assert(buf[i] == buf.subrange(148, 156)[i - 148]);
        } else if i < 164 {
            assert(enc[i] == enc.subrange(156, 164)[i - 156]);
            assert(buf[i] == buf.subrange(156, 164)[i - 156]);
        } else {
            assert(enc[i] == enc.subrange(164, 172)[i - 164]);
            assert(buf[i] == buf.subrange(164, 172)[i - 164]);
        }
    }
    assert(enc =~= want);
}

/// How many bytes a loan record takes, its tag included.
pub const LOAN_LEN: usize = 292;

/// The tag that marks a buffer as a loan record.
pub open spec fn loan_tag() -> Seq<u8> {
    seq![20u8, 195u8, 70u8, 117u8, 165u8, 227u8, 182u8, 1u8]
}

/// What a loan is secured and settled as.
#[derive(Clone, Copy, Debug, PartialEq, Eq, Structural)]
pub enum LoanKind {
    Loan,
    Mortgage,
}

/// Where a loan stands in its life.
#[derive(Clone, Copy, Debug, PartialEq, Eq, Structural)]
pub enum LoanStatus {
    Ongoing,
    Repaid,
    Liquidated,
    Sold,
}

impl LoanKind {
    /// The byte that stands for the kind: 0 for a plain loan, 1 for a mortgage.
    pub open spec fn spec_to_byte(self) -> u8 {
        match self {
            LoanKind::Loan => 0,
            LoanKind::Mortgage => 1,
        }
    }

    /// The kind that a byte stands for, if any.
    pub open spec fn spec_from_byte(byte: u8) -> Option<LoanKind> {
        if byte == 0 {
            Some(LoanKind::Loan)
        } else if byte == 1 {
            Some(LoanKind::Mortgage)
        } else {
            None
        }
    }

    pub fn to_byte(self) -> (byte: u8)
        ensures
            byte == self.spec_to_byte(),
    {
        match self {
            LoanKind::Loan => 0,
            LoanKind::Mortgage => 1,
        }
    }

    pub fn from_byte(byte: u8) -> (kind: Option<LoanKind>)
        ensures
            kind == LoanKind::spec_from_byte(byte),
    {
        if byte == 0 {
            Some(LoanKind::Loan)
        } else if byte == 1 {
            Some(LoanKind::Mortgage)
        } else {
            None
        }
    }
}

impl LoanStatus {
    /// The byte that stands for the status: 1 for an ongoing loan, then 2 for
    /// a repaid, 3 for a liquidated and 4 for a sold one.
    pub open spec fn spec_to_byte(self) -> u8 {
        match self {
            LoanStatus::Ongoing => 1,
            LoanStatus::Repaid => 2,
            LoanStatus::Liquidated => 3,
            LoanStatus::Sold => 4,
        }
    }

    /// The status that a byte stands for, if any.
    pub open spec fn spec_from_byte(byte: u8) -> Option<LoanStatus> {
        if byte == 1 {
            Some(LoanStatus::Ongoing)
        } else if byte == 2 {
            Some(LoanStatus::Repaid)
        } else if byte == 3 {
            Some(LoanStatus::Liquidated)
        } else if byte == 4 {
            Some(LoanStatus::Sold)
        } else {
            None
        }
    }

    pub fn to_byte(self) -> (byte: u8)
        ensures
            byte == self.spec_to_byte(),
    {
        match self {
            LoanStatus::Ongoing => 1,
            LoanStatus::Repaid => 2,
            LoanStatus::Liquidated => 3,
            LoanStatus::Sold => 4,
        }
    }

    pub fn from_byte(byte: u8) -> (status: Option<LoanStatus>)
        ensures
            status == LoanStatus::spec_from_byte(byte),
    {
        if byte == 1 {
            Some(LoanStatus::Ongoing)
        } else if byte == 2 {
            Some(LoanStatus::Repaid)
        } else if byte == 3 {
            Some(LoanStatus::Liquidated)
        } else if byte == 4 {
            Some(LoanStatus::Sold)
        } else {
            None
        }
    }
}

/// The byte that stands for a flag: 1 when it is set, 0 when it is not.
pub open spec fn flag_to_byte(flag: bool) -> u8 {
    if flag {
        1
    } else {
        0
    }
}

/// The flag that a byte stands for, if any.
pub open spec fn flag_from_byte(byte: u8) -> Option<bool> {
    if byte == 0 {
        Some(false)
    } else if byte == 1 {
        Some(true)
    } else {
        None
    }
}

/// One borrowing position against a pool.
#[derive(Clone, Copy, Debug, PartialEq, Eq)]
pub struct Loan {
    pub kind: LoanKind,
    pub status: LoanStatus,
    pub borrower: Identity,
    pub lender: Identity,
    pub pool: Identity,
    pub mint: Identity,
    pub currency: Identity,
    pub is_custom: bool,
    pub is_frozen: bool,
    pub price: u64,
    pub interest: u64,
    pub amount: u64,
    pub duration: u64,
    pub collection: u32,
    pub liquidation: u16,
    pub padding: [u8; 20],
    pub padding1: [u8; 20],
    pub padding3: [u8; 2],
    pub created_at: u64,
    pub expired_at: u64,
    pub repaid_at: u64,
    pub sold_at: u64,
    pub liquidated_at: u64,
}

impl Loan {
    /// The tag that marks a buffer as a loan record.
    pub fn discriminator() -> (tag: [u8; 8])
        ensures
            tag@ == loan_tag(),
    {
        let tag: [u8; 8] = [20, 195, 70, 117, 165, 227, 182, 1];
        proof {
            assert(tag@ =~= loan_tag());
        }
        tag
    }

    /// Whether the four bytes of a tagged buffer that stand for an
    /// enumeration or a flag each have a meaning.
    pub open spec fn fields_valid(buf: Seq<u8>) -> bool {
        &&& LoanKind::spec_from_byte(buf[8]) is Some
        &&& LoanStatus::spec_from_byte(buf[9]) is Some
        &&& flag_from_byte(buf[170]) is Some
        &&& flag_from_byte(buf[171]) is Some
    }

    /// The layout: which bytes of a tagged buffer hold which field. The tag
    /// itself, bytes 0 to 7, is not looked at.
    pub open spec fn decodes_from(self, buf: Seq<u8>) -> bool {
        &&& buf.len() == LOAN_LEN
        &&& LoanKind::spec_from_byte(buf[8]) == Some(self.kind)
        &&& LoanStatus::spec_from_byte(buf[9]) == Some(self.status)
        &&& self.borrower@ == buf.subrange(10, 42)
        &&& self.lender@ == buf.subrange(42, 74)
        &&& self.pool@ == buf.subrange(74, 106)
        &&& self.mint@ == buf.subrange(106, 138)
        &&& self.currency@ == buf.subrange(138, 170)
        &&& flag_from_byte(buf[170]) == Some(self.is_custom)
        &&& flag_from_byte(buf[171]) == Some(self.is_frozen)
        &&& self.price as nat == le_value(buf.subrange(172, 180))
        &&& self.interest as nat == le_value(buf.subrange(180, 188))
        &&& self.amount as nat == le_value(buf.subrange(188, 196))
        &&& self.duration as nat == le_value(buf.subrange(196, 204))
        &&& self.collection as nat == le_value(buf.subrange(204, 208))
        &&& self.liquidation as nat == le_value(buf.subrange(208, 210))
        &&& self.padding@ == buf.subrange(210, 230)
        &&& self.padding1@ == buf.subrange(230, 250)
        &&& self.padding3@ == buf.subrange(250, 252)
        &&& self.created_at as nat == le_value(buf.subrange(252, 260))
        &&& self.expired_at as nat == le_value(buf.subrange(260, 268))
        &&& self.repaid_at as nat == le_value(buf.subrange(268, 276))
        &&& self.sold_at as nat == le_value(buf.subrange(276, 284))
        &&& self.liquidated_at as nat == le_value(buf.subrange(284, 292))
    }

    /// What decoding a buffer gives: the loan that the layout reads from it,
    /// or the reason why there is none. The length is looked at first.
    pub open spec fn spec_decode(buf: Seq<u8>) -> Result<Loan, DecodeError> {
        if buf.len() != LOAN_LEN {
            Err(DecodeError::BadLength)
        } else if !Loan::fields_valid(buf) {
            Err(DecodeError::BadField)
        } else {
            Ok(choose|loan: Loan| loan.decodes_from(buf))
        }
    }

    /// The bytes of the record, tag first.
    pub open spec fn spec_encode(self) -> Seq<u8> {
        loan_tag() + seq![self.kind.spec_to_byte(), self.status.spec_to_byte()] + self.borrower@
            + self.lender@ + self.pool@ + self.mint@ + self.currency@ + seq![
            flag_to_byte(self.is_custom),
            flag_to_byte(self.is_frozen),
        ] + le_bytes(self.price as nat, 8) + le_bytes(self.interest as nat, 8) + le_bytes(
            self.amount as nat,
            8,
        ) + le_bytes(self.duration as nat, 8) + le_bytes(self.collection as nat, 4) + le_bytes(
            self.liquidation as nat,
            2,
        ) + self.padding@ + self.padding1@ + self.padding3@ + le_bytes(self.created_at as nat, 8)
            + le_bytes(self.expired_at as nat, 8) + le_bytes(self.repaid_at as nat, 8) + le_bytes(
            self.sold_at as nat,
            8,
        ) + le_bytes(self.liquidated_at as nat, 8)
    }

    /// Reads a loan from a tagged buffer. The buffer must be exactly one
    /// record long, and the bytes of its kind, its status and its two flags
    /// must each have a meaning; the tag is skipped, not compared.
    pub fn decode(buf: &[u8]) -> (decoded: Result<Loan, DecodeError>)
        ensures
            decoded == Loan::spec_decode(buf@),
            match decoded {
                Ok(loan) => loan.decodes_from(buf@),
                Err(DecodeError::BadLength) => buf@.len() != LOAN_LEN,
                Err(DecodeError::BadField) => buf@.len() == LOAN_LEN && !Loan::fields_valid(buf@),
            },
    {
        if buf.len() != LOAN_LEN {
            return Err(DecodeError::BadLength);
        }
        let kind = match LoanKind::from_byte(buf[8]) {
            Some(kind) => kind,
            None => {
                return Err(DecodeError::BadField);
            },
        };
        let status = match LoanStatus::from_byte(buf[9]) {
            Some(status) => status,
            None => {
                return Err(DecodeError::BadField);
            },
        };
        if buf[170] > 1 || buf[171] > 1 {
            return Err(DecodeError::BadField);
        }
        proof {
            lemma_le_limits();
            lemma_le_value_bound(buf@.subrange(204, 208));
            lemma_le_value_bound(buf@.subrange(208, 210));
        }
        let collection: u64 = read_le(buf, 204, 4);
        let liquidation: u64 = read_le(buf, 208, 2);
        let loan = Loan {
            kind,
            status,
            borrower: Identity::new(read_array::<32>(buf, 10)),
            lender: Identity::new(read_array::<32>(buf, 42)),
            pool: Identity::new(read_array::<32>(buf, 74)),
            mint: Identity::new(read_array::<32>(buf, 106)),
            currency: Identity::new(read_array::<32>(buf, 138)),
            is_custom: buf[170] == 1,
            is_frozen: buf[171] == 1,
            price: read_le(buf, 172, 8),
            interest: read_le(buf, 180, 8),
            amount: read_le(buf, 188, 8),
            duration: read_le(buf, 196, 8),
            collection: collection as u32,
            liquidation: liquidation as u16,
            padding: read_array::<20>(buf, 210),
            padding1: read_array::<20>(buf, 230),
            padding3: read_array::<2>(buf, 250),
            created_at: read_le(buf, 252, 8),
            expired_at: read_le(buf, 260, 8),
            repaid_at: read_le(buf, 268, 8),
            sold_at: read_le(buf, 276, 8),
            liquidated_at: read_le(buf, 284, 8),
        };
        proof {
            assert(loan.decodes_from(buf@));
            lemma_loan_decodes_once(loan, choose|other: Loan| other.decodes_from(buf@), buf@);
        }
        Ok(loan)
    }

    /// Writes the record as a tagged buffer.
    pub fn encode(&self) -> (out: Vec<u8>)
        ensures
            out@ == self.spec_encode(),
    {
        let tag = Loan::discriminator();
        let mut out: Vec<u8> = Vec::new();
        out.extend_from_slice(tag.as_slice());
        out.push(self.kind.to_byte());
        out.push(self.status.to_byte());
        out.extend_from_slice(self.borrower.bytes.as_slice());
        out.extend_from_slice(self.lender.bytes.as_slice());
        out.extend_from_slice(self.pool.bytes.as_slice());
        out.extend_from_slice(self.mint.bytes.as_slice());
        out.extend_from_slice(self.currency.bytes.as_slice());
        out.push(if self.is_custom { 1 } else { 0 });
        out.push(if self.is_frozen { 1 } else { 0 });
        write_le(&mut out, self.price, 8);
        write_le(&mut out, self.interest, 8);
        write_le(&mut out, self.amount, 8);
        write_le(&mut out, self.duration, 8);
        write_le(&mut out, self.collection as u64, 4);
        write_le(&mut out, self.liquidation as u64, 2);
        out.extend_from_slice(self.padding.as_slice());
        out.extend_from_slice(self.padding1.as_slice());
        out.extend_from_slice(self.padding3.as_slice());
        write_le(&mut out, self.created_at, 8);
        write_le(&mut out, self.expired_at, 8);
        write_le(&mut out, self.repaid_at, 8);
        write_le(&mut out, self.sold_at, 8);
        write_le(&mut out, self.liquidated_at, 8);
        proof {
            assert(out@ =~= self.spec_encode());
        }
        out
    }
}

/// A buffer holds at most one loan.
pub proof fn lemma_loan_decodes_once(a: Loan, b: Loan, buf: Seq<u8>)
    requires
        a.decodes_from(buf),
        b.decodes_from(buf),
    ensures
        a == b,
{
    assert(a.borrower.bytes =~= b.borrower.bytes);
    assert(a.lender.bytes =~= b.lender.bytes);
    assert(a.pool.bytes =~= b.pool.bytes);
    assert(a.mint.bytes =~= b.mint.bytes);
    assert(a.currency.bytes =~= b.currency.bytes);
    assert(a.padding =~= b.padding);
    assert(a.padding1 =~= b.padding1);
    assert(a.padding3 =~= b.padding3);
}

/// Encoding a loan and decoding the bytes gives the same loan, field for
/// field.
pub proof fn lemma_loan_round_trip(loan: Loan)
    ensures
        loan.spec_encode().len() == LOAN_LEN,
        loan.spec_encode().subrange(0, TAG_LEN as int) == loan_tag(),
        Loan::fields_valid(loan.spec_encode()),
        loan.decodes_from(loan.spec_encode()),
        Loan::spec_decode(loan.spec_encode()) == Ok::<Loan, DecodeError>(loan),
{
    let buf = loan.spec_encode();
    lemma_le_limits();
    lemma_le_bytes_len(loan.price as nat, 8);
    lemma_le_bytes_len(loan.interest as nat, 8);
    lemma_le_bytes_len(loan.amount as nat, 8);
    lemma_le_bytes_len(loan.duration as nat, 8);
    lemma_le_bytes_len(loan.collection as nat, 4);
    lemma_le_bytes_len(loan.liquidation as nat, 2);
    lemma_le_bytes_len(loan.created_at as nat, 8);
    lemma_le_bytes_len(loan.expired_at as nat, 8);
    lemma_le_bytes_len(loan.repaid_at as nat, 8);
    lemma_le_bytes_len(loan.sold_at as nat, 8);
    lemma_le_bytes_len(loan.liquidated_at as nat, 8);
    lemma_le_value_of_bytes(loan.price as nat, 8);
    lemma_le_value_of_bytes(loan.interest as nat, 8);
    lemma_le_value_of_bytes(loan.amount as nat, 8);
    lemma_le_value_of_bytes(loan.duration as nat, 8);
    lemma_le_value_of_bytes(loan.collection as nat, 4);
    lemma_le_value_of_bytes(loan.liquidation as nat, 2);
    lemma_le_value_of_bytes(loan.created_at as nat, 8);
    lemma_le_value_of_bytes(loan.expired_at as nat, 8);
    lemma_le_value_of_bytes(loan.repaid_at as nat, 8);
    lemma_le_value_of_bytes(loan.sold_at as nat, 8);
    lemma_le_value_of_bytes(loan.liquidated_at as nat, 8);
    assert(buf.len() == LOAN_LEN);
    assert(buf.subrange(0, 8) =~= loan_tag());
    assert(buf.subrange(10, 42) =~= loan.borrower@);
    assert(buf.subrange(42, 74) =~= loan.lender@);
    assert(buf.subrange(74, 106) =~= loan.pool@);
    assert(buf.subrange(106, 138) =~= loan.mint@);
    assert(buf.subrange(138, 170) =~= loan.currency@);
    assert(buf.subrange(172, 180) =~= le_bytes(loan.price as nat, 8));
    assert(buf.subrange(180, 188) =~= le_bytes(loan.interest as nat, 8));
    assert(buf.subrange(188, 196) =~= le_bytes(loan.amount as nat, 8));
    assert(buf.subrange(196, 204) =~= le_bytes(loan.duration as nat, 8));
    assert(buf.subrange(204, 208) =~= le_bytes(loan.collection as nat, 4));
    assert(buf.subrange(208, 210) =~= le_bytes(loan.liquidation as nat, 2));
    assert(buf.subrange(252, 260) =~= le_bytes(loan.created_at as nat, 8));
    assert(buf.subrange(260, 268) =~= le_bytes(loan.expired_at as nat, 8));
    assert(buf.subrange(268, 276) =~= le_bytes(loan.repaid_at as nat, 8));
    assert(buf.subrange(276, 284) =~= le_bytes(loan.sold_at as nat, 8));
    assert(buf.subrange(284, 292) =~= le_bytes(loan.liquidated_at as nat, 8));
    assert(buf.subrange(210, 230) =~= loan.padding@);
    assert(buf.subrange(230, 250) =~= loan.padding1@);
    assert(buf.subrange(250, 252) =~= loan.padding3@);
    assert(loan.decodes_from(buf));
    lemma_loan_decodes_once(loan, choose|other: Loan| other.decodes_from(buf), buf);
}

/// Decoding a buffer and encoding the loan gives the buffer back, but for
/// its tag, which decoding does not read and encoding sets.
pub proof fn lemma_loan_encode_of_decoded(loan: Loan, buf: Seq<u8>)
    requires
        loan.decodes_from(buf),
    ensures
        loan.spec_encode() == loan_tag() + buf.skip(TAG_LEN as int),
{
    lemma_loan_round_trip(loan);
    let enc = loan.spec_encode();
    lemma_le_bytes_of_value(buf.subrange(172, 180));
    lemma_le_bytes_of_value(buf.subrange(180, 188));
    lemma_le_bytes_of_value(buf.subrange(188, 196));
    lemma_le_bytes_of_value(buf.subrange(196, 204));
    lemma_le_bytes_of_value(buf.subrange(204, 208));
    lemma_le_bytes_of_value(buf.subrange(208, 210));
    lemma_le_bytes_of_value(buf.subrange(252, 260));
    lemma_le_bytes_of_value(buf.subrange(260, 268));
    lemma_le_bytes_of_value(buf.subrange(268, 276));
    lemma_le_bytes_of_value(buf.subrange(276, 284));
    lemma_le_bytes_of_value(buf.subrange(284, 292));
    lemma_le_bytes_of_value(enc.subrange(172, 180));
    lemma_le_bytes_of_value(enc.subrange(180, 188));
    lemma_le_bytes_of_value(enc.subrange(188, 196));
    lemma_le_bytes_of_value(enc.subrange(196, 204));
    lemma_le_bytes_of_value(enc.subrange(204, 208));
    lemma_le_bytes_of_value(enc.subrange(208, 210));
    lemma_le_bytes_of_value(enc.subrange(252, 260));
    lemma_le_bytes_of_value(enc.subrange(260, 268));
    lemma_le_bytes_of_value(enc.subrange(268, 276));
    lemma_le_bytes_of_value(enc.subrange(276, 284));
    lemma_le_bytes_of_value(enc.subrange(284, 292));
    let want = loan_tag() + buf.skip(8);
    assert forall|i: int| 0 <= i < 292 implies enc[i] == want[i] by {
        if i < 8 {
            assert(enc[i] == enc.subrange(0, 8)[i]);
        } else if i < 10 {
        } else if i < 42 {
            assert(enc[i] == enc.subrange(10, 42)[i - 10]);
            assert(buf[i] == buf.subrange(10, 42)[i - 10]);
        } else if i < 74 {
            assert(enc[i] == enc.subrange(42, 74)[i - 42]);
            assert(buf[i] == buf.subrange(42, 74)[i - 42]);
        } else if i < 106 {
            assert(enc[i] == enc.subrange(74, 106)[i - 74]);
            assert(buf[i] == buf.subrange(74, 106)[i - 74]);
        } else if i < 138 {
            assert(enc[i] == enc.subrange(106, 138)[i - 106]);
            assert(buf[i] == buf.subrange(106, 138)[i - 106]);
        } else if i < 170 {
            assert(enc[i] == enc.subrange(138, 170)[i - 138]);
            assert(buf[i] == buf.subrange(138, 170)[i - 138]);
        } else if i < 172 {
        } else if i < 180 {
            assert(enc[i] == enc.subrange(172, 180)[i - 172]);
            assert(buf[i] == buf.subrange(172, 180)[i - 172]);
        } else if i < 188 {
            assert(enc[i] == enc.subrange(180, 188)[i - 180]);
            assert(buf[i] == buf.subrange(180, 188)[i - 180]);
        } else if i < 196 {
            assert(enc[i] == enc.subrange(188, 196)[i - 188]);
            assert(buf[i] == buf.subrange(188, 196)[i - 188]);
        } else if i < 204 {
            assert(enc[i] == enc.subrange(196, 204)[i - 196]);
            assert(buf[i] == buf.subrange(196, 204)[i - 196]);
        } else if i < 208 {
            assert(enc[i] == enc.subrange(204, 208)[i - 204]);
            assert(buf[i] == buf.subrange(204, 208)[i - 204]);
        } else if i < 210 {
            assert(enc[i] == enc.subrange(208, 210)[i - 208]);
            assert(buf[i] == buf.subrange(208, 210)[i - 208]);
        } else if i < 230 {
            assert(enc[i] == enc.subrange(210, 230)[i - 210]);
            assert(buf[i] == buf.subrange(210, 230)[i - 210]);
        } else if i < 250 {
            assert(enc[i] == enc.subrange(230, 250)[i - 230]);
            assert(buf[i] == buf.subrange(230, 250)[i - 230]);
        } else if i < 252 {
            assert(enc[i] == enc.subrange(250, 252)[i - 250]);
            assert(buf[i] == buf.subrange(250, 252)[i - 250]);
        } else if i < 260 {
            assert(enc[i] == enc.subrange(252, 260)[i - 252]);
            assert(buf[i] == buf.subrange(252, 260)[i - 252]);
        } else if i < 268 {
            assert(enc[i] == enc.subrange(260, 268)[i - 260]);
            assert(buf[i] == buf.subrange(260, 268)[i - 260]);
        } else if i < 276 {
            assert(enc[i] == enc.subrange(268, 276)[i - 268]);
            assert(buf[i] == buf.subrange(268, 276)[i - 268]);
        } else if i < 284 {
            assert(enc[i] == enc.subrange(276, 284)[i - 276]);
            assert(buf[i] == buf.subrange(276, 284)[i - 276]);
        } else if i < 292 {
            assert(enc[i] == enc.subrange(284, 292)[i - 284]);
            assert(buf[i] == buf.subrange(284, 292)[i - 284]);
        }
    }
    assert(enc =~= want);
}

/// Every buffer of a pool's length holds a pool.
pub proof fn lemma_pool_exists(buf: Seq<u8>)
    requires
        buf.len() == POOL_LEN,
    ensures
        exists|pool: Pool| pool.decodes_from(buf),
{
    lemma_le_limits();
    lemma_array_exists::<32>(buf.subrange(9, 41));
    let owner = choose|array: [u8; 32]| array@ == buf.subrange(9, 41);
    lemma_array_exists::<32>(buf.subrange(41, 73));
    let currency = choose|array: [u8; 32]| array@ == buf.subrange(41, 73);
    lemma_array_exists::<64>(buf.subrange(73, 137));
    let padding = choose|array: [u8; 64]| array@ == buf.subrange(73, 137);
    lemma_array_exists::<3>(buf.subrange(137, 140));
    let padding1 = choose|array: [u8; 3]| array@ == buf.subrange(137, 140);
    lemma_le_value_bound(buf.subrange(140, 148));
    lemma_le_value_bound(buf.subrange(148, 156));
    lemma_le_value_bound(buf.subrange(156, 164));
    lemma_le_value_bound(buf.subrange(164, 172));
    let pool = Pool {
        bump: buf[8],
        owner: Identity { bytes: owner },
        currency: Identity { bytes: currency },
        padding,
        padding1,
        total_amount: le_value(buf.subrange(140, 148)) as u64,
        borrowed_amount: le_value(buf.subrange(148, 156)) as u64,
        available_amount: le_value(buf.subrange(156, 164)) as u64,
        usable_amount: le_value(buf.subrange(164, 172)) as u64,
    };
    assert(pool.decodes_from(buf));
}

/// Every buffer of a loan's length whose enumeration and flag bytes have a
/// meaning holds a loan.
pub proof fn lemma_loan_exists(buf: Seq<u8>)
    requires
        buf.len() == LOAN_LEN,
        Loan::fields_valid(buf),
    ensures
        exists|loan: Loan| loan.decodes_from(buf),
{
    lemma_le_limits();
    lemma_array_exists::<32>(buf.subrange(10, 42));
    let borrower = choose|array: [u8; 32]| array@ == buf.subrange(10, 42);
    lemma_array_exists::<32>(buf.subrange(42, 74));
    let lender = choose|array: [u8; 32]| array@ == buf.subrange(42, 74);
    lemma_array_exists::<32>(buf.subrange(74, 106));
    let pool = choose|array: [u8; 32]| array@ == buf.subrange(74, 106);
    lemma_array_exists::<32>(buf.subrange(106, 138));
    let mint = choose|array: [u8; 32]| array@ == buf.subrange(106, 138);
    lemma_array_exists::<32>(buf.subrange(138, 170));
    let currency = choose|array: [u8; 32]| array@ == buf.subrange(138, 170);
    lemma_array_exists::<20>(buf.subrange(210, 230));
    let padding = choose|array: [u8; 20]| array@ == buf.subrange(210, 230);
    lemma_array_exists::<20>(buf.subrange(230, 250));
    let padding1 = choose|array: [u8; 20]| array@ == buf.subrange(230, 250);
    lemma_array_exists::<2>(buf.subrange(250, 252));
    let padding3 = choose|array: [u8; 2]| array@ == buf.subrange(250, 252);
    lemma_le_value_bound(buf.subrange(172, 180));
    lemma_le_value_bound(buf.subrange(180, 188));
    lemma_le_value_bound(buf.subrange(188, 196));
    lemma_le_value_bound(buf.subrange(196, 204));
    lemma_le_value_bound(buf.subrange(204, 208));
    lemma_le_value_bound(buf.subrange(208, 210));
    lemma_le_value_bound(buf.subrange(252, 260));
    lemma_le_value_bound(buf.subrange(260, 268));
    lemma_le_value_bound(buf.subrange(268, 276));
    lemma_le_value_bound(buf.subrange(276, 284));
    lemma_le_value_bound(buf.subrange(284, 292));
    let loan = Loan {
        kind: LoanKind::spec_from_byte(buf[8]).unwrap(),
        status: LoanStatus::spec_from_byte(buf[9]).unwrap(),
        borrower: Identity { bytes: borrower },
        lender: Identity { bytes: lender },
        pool: Identity { bytes: pool },
        mint: Identity { bytes: mint },
        currency: Identity { bytes: currency },
        is_custom: buf[170] == 1,
        is_frozen: buf[171] == 1,
        price: le_value(buf.subrange(172, 180)) as u64,
        interest: le_value(buf.subrange(180, 188)) as u64,
        amount: le_value(buf.subrange(188, 196)) as u64,
        duration: le_value(buf.subrange(196, 204)) as u64,
        collection: le_value(buf.subrange(204, 208)) as u32,
        liquidation: le_value(buf.subrange(208, 210)) as u16,
        padding,
        padding1,
        padding3,
        created_at: le_value(buf.subrange(252, 260)) as u64,
        expired_at: le_value(buf.subrange(260, 268)) as u64,
        repaid_at: le_value(buf.subrange(268, 276)) as u64,
        sold_at: le_value(buf.subrange(276, 284)) as u64,
        liquidated_at: le_value(buf.subrange(284, 292)) as u64,
    };
    assert(loan.decodes_from(buf));
}

/// A buffer decodes to a record exactly when the layout reads that record
/// from it: a pool when the length is right, a loan when moreover its
/// enumeration and flag bytes have a meaning.
pub proof fn lemma_decode_is_layout(buf: Seq<u8>)
    ensures
        forall|pool: Pool| Pool::spec_decode(buf) == Ok::<Pool, DecodeError>(pool) <==> pool.decodes_from(buf),
        forall|loan: Loan| Loan::spec_decode(buf) == Ok::<Loan, DecodeError>(loan) <==> loan.decodes_from(buf),
        Pool::spec_decode(buf) is Err <==> buf.len() != POOL_LEN,
        Loan::spec_decode(buf) is Err <==> buf.len() != LOAN_LEN || !Loan::fields_valid(buf),
{
    assert forall|pool: Pool| pool.decodes_from(buf) implies Pool::spec_decode(buf) == Ok::<Pool, DecodeError>(pool) by {
        lemma_pool_decodes_once(pool, choose|other: Pool| other.decodes_from(buf), buf);
    }
    assert forall|loan: Loan| loan.decodes_from(buf) implies Loan::spec_decode(buf) == Ok::<Loan, DecodeError>(loan) by {
        lemma_loan_decodes_once(loan, choose|other: Loan| other.decodes_from(buf), buf);
    }
    if buf.len() == POOL_LEN {
        lemma_pool_exists(buf);
    }
    if buf.len() == LOAN_LEN && Loan::fields_valid(buf) {
        lemma_loan_exists(buf);
    }
}

} // verus!

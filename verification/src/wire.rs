//! Little-endian unsigned integers as they lie in a record.

use vstd::prelude::*;

verus! {

/// The number that `bytes` spell, least significant byte first.
pub open spec fn le_value(bytes: Seq<u8>) -> nat
    decreases bytes.len(),
{
    if bytes.len() == 0 {
        0
    } else {
        bytes[0] as nat + 256 * le_value(bytes.skip(1))
    }
}

/// The `width` low bytes of `value`, least significant byte first.
pub open spec fn le_bytes(value: nat, width: nat) -> Seq<u8>
    decreases width,
{
    if width == 0 {
        Seq::<u8>::empty()
    } else {
        seq![(value % 256) as u8] + le_bytes(value / 256, (width - 1) as nat)
    }
}

/// The number of values that `width` bytes can spell: 256 to the power `width`.
pub open spec fn le_limit(width: nat) -> nat
    decreases width,
{
    if width == 0 {
        1
    } else {
        256 * le_limit((width - 1) as nat)
    }
}

/// `le_bytes` gives exactly `width` bytes.
pub proof fn lemma_le_bytes_len(value: nat, width: nat)
    ensures
        le_bytes(value, width).len() == width,
    decreases width,
{
    if width > 0 {
        lemma_le_bytes_len(value / 256, (width - 1) as nat);
    }
}

/// What `n` bytes spell is below 256 to the power `n`.
pub proof fn lemma_le_value_bound(bytes: Seq<u8>)
    ensures
        le_value(bytes) < le_limit(bytes.len()),
    decreases bytes.len(),
{
    if bytes.len() > 0 {
        lemma_le_value_bound(bytes.skip(1));
        let rest = le_value(bytes.skip(1));
        let lim = le_limit((bytes.len() - 1) as nat);
        assert(bytes[0] as nat + 256 * rest < 256 * lim) by (nonlinear_arith)
            requires
                rest < lim,
                (bytes[0] as nat) < 256,
        ;
    }
}

/// Writing a number that fits in `width` bytes and reading it back gives the
/// number.
pub proof fn lemma_le_value_of_bytes(value: nat, width: nat)
    requires
        value < le_limit(width),
    ensures
        le_value(le_bytes(value, width)) == value,
    decreases width,
{
    if width > 0 {
        let w = (width - 1) as nat;
        let rest = le_bytes(value / 256, w);
        let all = le_bytes(value, width);
        assert(value / 256 < le_limit(w)) by (nonlinear_arith)
            requires
                value < 256 * le_limit(w),
        ;
        lemma_le_value_of_bytes(value / 256, w);
        assert(all.skip(1) =~= rest);
        assert(all[0] == (value % 256) as u8);
        assert(value == (value % 256) + 256 * (value / 256)) by (nonlinear_arith);
    }
}

/// Reading bytes as a number and writing it back in as many bytes gives the
/// bytes.
pub proof fn lemma_le_bytes_of_value(bytes: Seq<u8>)
    ensures
        le_bytes(le_value(bytes), bytes.len()) == bytes,
    decreases bytes.len(),
{
    if bytes.len() > 0 {
        let rest = bytes.skip(1);
        let v = le_value(bytes);
        lemma_le_bytes_of_value(rest);
        assert(v % 256 == bytes[0] as nat && v / 256 == le_value(rest)) by (nonlinear_arith)
            requires
                v == bytes[0] as nat + 256 * le_value(rest),
                (bytes[0] as nat) < 256,
        ;
        assert(le_bytes(v, bytes.len()) =~= bytes);
    } else {
        assert(le_bytes(le_value(bytes), bytes.len()) =~= bytes);
    }
}

/// Eight bytes spell exactly the values of a `u64`, four those of a `u32`, two
/// those of a `u16`.
pub proof fn lemma_le_limits()
    ensures
        le_limit(2) == 0x1_0000,
        le_limit(4) == 0x1_0000_0000,
        le_limit(8) == 0x1_0000_0000_0000_0000,
{
    reveal_with_fuel(le_limit, 9);
}

/// Reads the `width` bytes of `buf` from `start` on as a little-endian number.
pub fn read_le(buf: &[u8], start: usize, width: usize) -> (value: u64)
    requires
        width <= 8,
        start + width <= buf@.len(),
    ensures
        value as nat == le_value(buf@.subrange(start as int, start + width)),
{
    let len: usize = buf.len();
    let mut value: u64 = 0;
    let mut k: usize = width;
    proof {
        assert(buf@.subrange(start + width, start + width).len() == 0);
    }
    while k > 0
        invariant
            k <= width <= 8,
            len == buf@.len(),
            start + width <= len,
            value as nat == le_value(buf@.subrange(start + k, start + width)),
        decreases k,
    {
        let ghost tail = buf@.subrange(start + k, start + width);
        let ghost next = buf@.subrange(start + k - 1, start + width);
        proof {
            lemma_le_value_bound(next);
            lemma_le_limit_grows(next.len(), 8);
            lemma_le_limits();
            assert(next.skip(1) =~= tail);
            assert(next[0] == buf@[start + k - 1]);
            assert(le_value(next) == next[0] as nat + 256 * le_value(tail));
        }
        k = k - 1;
        value = value * 256 + buf[start + k] as u64;
    }
    value
}

/// Appends the `width` low bytes of `value` to `out`, least significant first.
pub fn write_le(out: &mut Vec<u8>, value: u64, width: usize)
    requires
        width <= 8,
    ensures
        final(out)@ == old(out)@ + le_bytes(value as nat, width as nat),
{
    let mut rest: u64 = value;
    let mut k: usize = 0;
    let ghost start = out@;
    proof {
        assert(out@ =~= start + le_bytes(value as nat, 0).take(0));
        lemma_le_bytes_len(value as nat, width as nat);
    }
    while k < width
        invariant
            k <= width,
            le_bytes(value as nat, width as nat).len() == width,
            out@ == start + le_bytes(value as nat, width as nat).take(k as int),
            le_bytes(value as nat, width as nat).skip(k as int) == le_bytes(
                rest as nat,
                (width - k) as nat,
            ),
        decreases width - k,
    {
        let ghost all = le_bytes(value as nat, width as nat);
        let ghost tail = le_bytes(rest as nat, (width - k) as nat);
        let low: u8 = (rest % 256) as u8;
        proof {
            assert(tail[0] == low);
            assert(all[k as int] == all.skip(k as int)[0]);
            assert(all.take(k + 1) =~= all.take(k as int).push(low));
            assert(all.skip(k + 1) =~= tail.skip(1));
            assert(tail.skip(1) =~= le_bytes(rest as nat / 256, (width - k - 1) as nat));
        }
        out.push(low);
        rest = rest / 256;
        k = k + 1;
        proof {
            assert(out@ =~= start + all.take(k as int));
        }
    }
    proof {
        let all = le_bytes(value as nat, width as nat);
        assert(all.take(width as int) =~= all);
    }
}

/// Copies the `N` bytes of `buf` from `start` on.
pub fn read_array<const N: usize>(buf: &[u8], start: usize) -> (bytes: [u8; N])
    requires
        start + N <= buf@.len(),
    ensures
        bytes@ == buf@.subrange(start as int, start + N),
{
    let len: usize = buf.len();
    let mut bytes: [u8; N] = [0u8; N];
    let mut k: usize = 0;
    while k < N
        invariant
            k <= N,
            len == buf@.len(),
            start + N <= len,
            bytes@.len() == N,
            forall|j: int| 0 <= j < k ==> bytes@[j] == buf@[start + j],
        decreases N - k,
    {
        bytes[k] = buf[start + k];
        k = k + 1;
    }
    proof {
        assert(bytes@ =~= buf@.subrange(start as int, start + N));
    }
    bytes
}

/// A wider field can spell whatever a narrower one can.
pub proof fn lemma_le_limit_grows(narrow: nat, wide: nat)
    requires
        narrow <= wide,
    ensures
        le_limit(narrow) <= le_limit(wide),
    decreases wide,
{
    if narrow < wide {
        lemma_le_limit_grows(narrow, (wide - 1) as nat);
    }
}

/// An array whose first `filled` bytes are those of `bytes`.
pub open spec fn array_with<const N: usize>(bytes: Seq<u8>, filled: nat) -> [u8; N]
    decreases filled,
{
    if filled == 0 {
        vstd::array::spec_array_fill_for_copy_type::<u8, N>(0u8)
    } else {
        vstd::array::spec_array_update(
            array_with::<N>(bytes, (filled - 1) as nat),
            filled - 1,
            bytes[filled - 1],
        )
    }
}

/// `array_with` holds the bytes that it was filled with.
pub proof fn lemma_array_with<const N: usize>(bytes: Seq<u8>, filled: nat)
    requires
        filled <= N,
    ensures
        forall|j: int| 0 <= j < filled ==> array_with::<N>(bytes, filled)@[j] == bytes[j],
    decreases filled,
{
    broadcast use vstd::array::axiom_spec_array_update;

    if filled > 0 {
        lemma_array_with::<N>(bytes, (filled - 1) as nat);
    }
}

/// Every `N` bytes are the content of some array.
pub proof fn lemma_array_exists<const N: usize>(bytes: Seq<u8>)
    requires
        bytes.len() == N,
    ensures
        exists|array: [u8; N]| array@ == bytes,
{
    lemma_array_with::<N>(bytes, N as nat);
    let array = array_with::<N>(bytes, N as nat);
    assert(array@ =~= bytes);
}

} // verus!

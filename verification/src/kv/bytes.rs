//! Little-endian integers inside byte buffers.
//!
//! Every integer that reaches the disk is little-endian. The two functions `le_nat` and `le_bytes`
//! say what that means; the readers and writers of this module are stated over them.

use vstd::prelude::*;
use zerocopy::byteorder::{LE, U128, U64};
use zerocopy::{FromBytes, IntoBytes};

verus! {

/// The number that the bytes `s` write down, least significant byte first.
pub open spec fn le_nat(s: Seq<u8>) -> nat
    decreases s.len(),
{
    if s.len() == 0 {
        0
    } else {
        s[0] as nat + 256 * le_nat(s.drop_first())
    }
}

/// The `len` least significant bytes of `n`, least significant byte first.
pub open spec fn le_bytes(n: nat, len: nat) -> Seq<u8>
    decreases len,
{
    if len == 0 {
        Seq::empty()
    } else {
        seq![(n % 256) as u8] + le_bytes(n / 256, (len - 1) as nat)
    }
}

/// `256` to the power of `len`: how many numbers `len` bytes can write down.
pub open spec fn byte_range(len: nat) -> nat
    decreases len,
{
    if len == 0 {
        1
    } else {
        256 * byte_range((len - 1) as nat)
    }
}

/// The little-endian `u64` at `offset`.
pub open spec fn u64_at(s: Seq<u8>, offset: int) -> nat {
    le_nat(s.subrange(offset, offset + 8))
}

/// The little-endian `u128` at `offset`.
pub open spec fn u128_at(s: Seq<u8>, offset: int) -> nat {
    le_nat(s.subrange(offset, offset + 16))
}

/// The `size` bytes at `offset`.
pub open spec fn bytes_at(s: Seq<u8>, offset: nat, size: nat) -> Seq<u8> {
    s.subrange(offset as int, (offset + size) as int)
}

/// `s` with the bytes from `offset` on overwritten by `data`.
pub open spec fn splice(s: Seq<u8>, offset: int, data: Seq<u8>) -> Seq<u8> {
    Seq::new(
        s.len(),
        |i: int|
            if offset <= i < offset + data.len() {
                data[i - offset]
            } else {
                s[i]
            },
    )
}

/// Whether `a` and `b` hold the same bytes from `from` up to `to`.
pub open spec fn same_range(a: Seq<u8>, b: Seq<u8>, from: int, to: int) -> bool {
    forall|i: int| from <= i < to ==> #[trigger] a[i] == b[i]
}

pub proof fn lemma_le_bytes_len(n: nat, len: nat)
    ensures
        le_bytes(n, len).len() == len,
    decreases len,
{
    if len > 0 {
        lemma_le_bytes_len(n / 256, (len - 1) as nat);
    }
}

pub proof fn lemma_le_nat_bound(s: Seq<u8>)
    ensures
        le_nat(s) < byte_range(s.len()),
    decreases s.len(),
{
    if s.len() > 0 {
        lemma_le_nat_bound(s.drop_first());
    }
}

/// Reading back the bytes of a number gives the number, as long as it fits.
pub proof fn lemma_le_nat_of_le_bytes(n: nat, len: nat)
    requires
        n < byte_range(len),
    ensures
        le_nat(le_bytes(n, len)) == n,
    decreases len,
{
    if len > 0 {
        lemma_le_nat_of_le_bytes(n / 256, (len - 1) as nat);
        let b = le_bytes(n, len);
        assert(b.drop_first() =~= le_bytes(n / 256, (len - 1) as nat));
        assert(b[0] == (n % 256) as u8);
    }
}

pub proof fn lemma_byte_range()
    ensures
        byte_range(8) == 0x1_0000_0000_0000_0000,
        byte_range(16) == 0x1_0000_0000_0000_0000_0000_0000_0000_0000,
{
    reveal_with_fuel(byte_range, 17);
}

/// A written `u64` reads back as itself.
pub proof fn lemma_u64_bytes(value: u64)
    ensures
        le_bytes(value as nat, 8).len() == 8,
        le_nat(le_bytes(value as nat, 8)) == value,
{
    lemma_le_bytes_len(value as nat, 8);
    lemma_byte_range();
    lemma_le_nat_of_le_bytes(value as nat, 8);
}

/// A written `u128` reads back as itself.
pub proof fn lemma_u128_bytes(value: u128)
    ensures
        le_bytes(value as nat, 16).len() == 16,
        le_nat(le_bytes(value as nat, 16)) == value,
{
    lemma_le_bytes_len(value as nat, 16);
    lemma_byte_range();
    lemma_le_nat_of_le_bytes(value as nat, 16);
}

/// An integer depends on its own bytes alone.
pub proof fn lemma_u64_at_same(a: Seq<u8>, b: Seq<u8>, offset: int)
    requires
        0 <= offset,
        offset + 8 <= a.len(),
        offset + 8 <= b.len(),
        same_range(a, b, offset, offset + 8),
    ensures
        u64_at(a, offset) == u64_at(b, offset),
{
    assert(a.subrange(offset, offset + 8) =~= b.subrange(offset, offset + 8));
}

pub proof fn lemma_u128_at_same(a: Seq<u8>, b: Seq<u8>, offset: int)
    requires
        0 <= offset,
        offset + 16 <= a.len(),
        offset + 16 <= b.len(),
        same_range(a, b, offset, offset + 16),
    ensures
        u128_at(a, offset) == u128_at(b, offset),
{
    assert(a.subrange(offset, offset + 16) =~= b.subrange(offset, offset + 16));
}

pub proof fn lemma_splice_u64(s: Seq<u8>, offset: int, value: u64)
    requires
        0 <= offset,
        offset + 8 <= s.len(),
    ensures
        u64_at(splice(s, offset, le_bytes(value as nat, 8)), offset) == value,
{
    lemma_u64_bytes(value);
    let d = le_bytes(value as nat, 8);
    assert(splice(s, offset, d).subrange(offset, offset + 8) =~= d);
}

pub proof fn lemma_splice_u128(s: Seq<u8>, offset: int, value: u128)
    requires
        0 <= offset,
        offset + 16 <= s.len(),
    ensures
        u128_at(splice(s, offset, le_bytes(value as nat, 16)), offset) == value,
{
    lemma_u128_bytes(value);
    let d = le_bytes(value as nat, 16);
    assert(splice(s, offset, d).subrange(offset, offset + 16) =~= d);
}

/// Calls `zerocopy::FromBytes::ref_from_prefix` for `U64<LE>` and takes the value with `U64::get`.
/// The reference is there exactly when the buffer has eight bytes, and the value is the
/// little-endian number that they write down.
#[verifier::external_body]
pub(crate) fn u64_from_prefix(bytes: &[u8]) -> (r: Option<u64>)
    ensures
        r is Some <==> bytes@.len() >= 8,
        r matches Some(v) ==> v as nat == le_nat(bytes@.take(8)),
{
    match U64::<LE>::ref_from_prefix(bytes) {
        Ok((value, _)) => Some(value.get()),
        Err(_) => None,
    }
}

/// Calls `zerocopy::FromBytes::ref_from_prefix` for `U128<LE>` and takes the value with
/// `U128::get`. The reference is there exactly when the buffer has sixteen bytes, and the value is
/// the little-endian number that they write down.
#[verifier::external_body]
pub(crate) fn u128_from_prefix(bytes: &[u8]) -> (r: Option<u128>)
    ensures
        r is Some <==> bytes@.len() >= 16,
        r matches Some(v) ==> v as nat == le_nat(bytes@.take(16)),
{
    match U128::<LE>::ref_from_prefix(bytes) {
        Ok((value, _)) => Some(value.get()),
        Err(_) => None,
    }
}

/// Calls `zerocopy::IntoBytes::write_to_prefix` for `U64<LE>` on the buffer from `offset` on: the
/// eight bytes there become the little-endian bytes of `value`, and no other byte changes.
#[verifier::external_body]
pub(crate) fn write_u64(page: &mut Vec<u8>, offset: usize, value: u64)
    requires
        offset + 8 <= old(page)@.len(),
    ensures
        final(page)@ == splice(old(page)@, offset as int, le_bytes(value as nat, 8)),
{
    U64::<LE>::new(value).write_to_prefix(&mut page[offset..]).unwrap();
}

/// Calls `zerocopy::IntoBytes::write_to_prefix` for `U128<LE>` on the buffer from `offset` on: the
/// sixteen bytes there become the little-endian bytes of `value`, and no other byte changes.
#[verifier::external_body]
pub(crate) fn write_u128(page: &mut Vec<u8>, offset: usize, value: u128)
    requires
        offset + 16 <= old(page)@.len(),
    ensures
        final(page)@ == splice(old(page)@, offset as int, le_bytes(value as nat, 16)),
{
    U128::<LE>::new(value).write_to_prefix(&mut page[offset..]).unwrap();
}

/// Reads the little-endian `u64` at `offset`.
pub fn read_u64(bytes: &[u8], offset: usize) -> (r: u64)
    requires
        offset + 8 <= bytes@.len(),
    ensures
        r as nat == u64_at(bytes@, offset as int),
{
    let tail = vstd::slice::slice_subrange(bytes, offset, bytes.len());
    assert(tail@.take(8) =~= bytes@.subrange(offset as int, offset + 8));
    u64_from_prefix(tail).unwrap()
}

/// Reads the little-endian `u128` at `offset`.
pub fn read_u128(bytes: &[u8], offset: usize) -> (r: u128)
    requires
        offset + 16 <= bytes@.len(),
    ensures
        r as nat == u128_at(bytes@, offset as int),
{
    let tail = vstd::slice::slice_subrange(bytes, offset, bytes.len());
    assert(tail@.take(16) =~= bytes@.subrange(offset as int, offset + 16));
    u128_from_prefix(tail).unwrap()
}

/// Overwrites the bytes of `page` from `offset` on with `data`.
pub fn write_data_at_offset(page: &mut Vec<u8>, data: &[u8], offset: usize)
    requires
        offset + data@.len() <= old(page)@.len(),
    ensures
        final(page)@ == splice(old(page)@, offset as int, data@),
{
    let ghost before = page@;
    let size = page.len();
    let len = data.len();
    let mut i: usize = 0;
    while i < len
        invariant
            i <= len,
            size == before.len(),
            len == data@.len(),
            page@.len() == before.len(),
            offset + len <= before.len(),
            forall|j: int|
                0 <= j < before.len() ==> #[trigger] page@[j] == (if offset <= j < offset + i {
                    data@[j - offset]
                } else {
                    before[j]
                }),
        decreases len - i,
    {
        page[offset + i] = data[i];
        i += 1;
    }
    assert(page@ =~= splice(before, offset as int, data@));
}

/// Moves the bytes from `from` up to `to` to the right, so that they start at `target`.
pub fn copy_within(page: &mut Vec<u8>, from: usize, to: usize, target: usize)
    requires
        from <= to,
        from <= target,
        target + (to - from) <= old(page)@.len(),
    ensures
        final(page)@ == splice(
            old(page)@,
            target as int,
            old(page)@.subrange(from as int, to as int),
        ),
{
    let ghost before = page@;
    let size = page.len();
    let len = to - from;
    let mut left: usize = len;
    while left > 0
        invariant
            left <= len,
            len == to - from,
            from <= to,
            from <= target,
            size == before.len(),
            target + len <= size,
            page@.len() == before.len(),
            forall|j: int|
                0 <= j < before.len() ==> #[trigger] page@[j] == (if target + left <= j < target
                    + len {
                    before[j - target + from]
                } else {
                    before[j]
                }),
        decreases left,
    {
        left -= 1;
        let byte = page[from + left];
        page[target + left] = byte;
    }
    assert(page@ =~= splice(before, target as int, before.subrange(from as int, to as int)));
}

/// Copies a slice into a vector of its own.
pub fn to_vec(data: &[u8]) -> (r: Vec<u8>)
    ensures
        r@ == data@,
{
    vstd::slice::slice_to_vec(data)
}

} // verus!

//! Big-endian numbers, byte comparison, and the byte buffers that messages
//! are built in.
use bytes::{Buf, BufMut, Bytes, BytesMut};
use vstd::prelude::*;

verus! {

/// The number that a byte sequence stands for, most significant byte first.
pub open spec fn be_value(s: Seq<u8>) -> nat
    decreases s.len(),
{
    if s.len() == 0 {
        0
    } else {
        be_value(s.drop_last()) * 256 + s.last() as nat
    }
}

/// The `width` low bytes of `n`, most significant byte first.
pub open spec fn be(n: nat, width: nat) -> Seq<u8>
    decreases width,
{
    if width == 0 {
        Seq::empty()
    } else {
        be(n / 256, (width - 1) as nat).push((n % 256) as u8)
    }
}

/// `be` gives `width` bytes.
pub broadcast proof fn lemma_be_len(n: nat, width: nat)
    ensures
        #[trigger] be(n, width).len() == width,
    decreases width,
{
    if width > 0 {
        lemma_be_len(n / 256, (width - 1) as nat);
    }
}

/// How many numbers fit in `width` bytes.
pub open spec fn byte_range(width: nat) -> nat
    decreases width,
{
    if width == 0 {
        1
    } else {
        256 * byte_range((width - 1) as nat)
    }
}

/// The widths that the protocol uses.
pub proof fn lemma_byte_range()
    ensures
        byte_range(2) == 0x1_0000,
        byte_range(4) == 0x1_0000_0000,
        byte_range(8) == 0x1_0000_0000_0000_0000,
{
    reveal_with_fuel(byte_range, 9);
}

/// A number that fits is read back from its bytes.
pub proof fn lemma_be_value_of_be(n: nat, width: nat)
    requires
        n < byte_range(width),
    ensures
        be_value(be(n, width)) == n,
    decreases width,
{
    if width > 0 {
        assert(n / 256 < byte_range((width - 1) as nat));
        lemma_be_value_of_be(n / 256, (width - 1) as nat);
        assert(be(n, width).drop_last() =~= be(n / 256, (width - 1) as nat));
    }
}

/// The two bytes of a short number.
pub proof fn lemma_be_value_2(s: Seq<u8>)
    requires
        s.len() == 2,
    ensures
        be_value(s) == s[0] * 256 + s[1],
{
    reveal_with_fuel(be_value, 3);
}

/// `bytes::Bytes`, a cheaply cloned immutable byte buffer.
#[verifier::external_type_specification]
#[verifier::external_body]
pub struct ExBytes(bytes::Bytes);

/// `bytes::BytesMut`, a growable byte buffer.
#[verifier::external_type_specification]
#[verifier::external_body]
pub struct ExBytesMut(bytes::BytesMut);

/// The bytes that a `Bytes` holds, in order.
pub uninterp spec fn contents(b: bytes::Bytes) -> Seq<u8>;

/// The bytes that a `BytesMut` holds, in order.
pub uninterp spec fn written(b: bytes::BytesMut) -> Seq<u8>;

/// Calls `BytesMut::with_capacity`: the new buffer is empty.
#[verifier::external_body]
pub(crate) fn buffer_with_capacity(capacity: usize) -> (buf: BytesMut)
    requires
        capacity <= isize::MAX,
    ensures
        written(buf) == Seq::<u8>::empty(),
{
    BytesMut::with_capacity(capacity)
}

/// Calls `BufMut::put_u8` on a `BytesMut`: the byte is appended.
#[verifier::external_body]
pub(crate) fn put_u8(buf: &mut BytesMut, n: u8)
    requires
        written(*old(buf)).len() + 1 <= isize::MAX,
    ensures
        written(*final(buf)) == written(*old(buf)).push(n),
{
    buf.put_u8(n)
}

/// Calls `BufMut::put_u16` on a `BytesMut`: the two bytes of `n` are
/// appended, most significant byte first.
#[verifier::external_body]
pub(crate) fn put_u16(buf: &mut BytesMut, n: u16)
    requires
        written(*old(buf)).len() + 2 <= isize::MAX,
    ensures
        written(*final(buf)) == written(*old(buf)) + be(n as nat, 2),
{
    buf.put_u16(n)
}

/// Calls `BufMut::put_u32` on a `BytesMut`: the four bytes of `n` are
/// appended, most significant byte first.
#[verifier::external_body]
pub(crate) fn put_u32(buf: &mut BytesMut, n: u32)
    requires
        written(*old(buf)).len() + 4 <= isize::MAX,
    ensures
        written(*final(buf)) == written(*old(buf)) + be(n as nat, 4),
{
    buf.put_u32(n)
}

/// Calls `BufMut::put_u64` on a `BytesMut`: the eight bytes of `n` are
/// appended, most significant byte first.
#[verifier::external_body]
pub(crate) fn put_u64(buf: &mut BytesMut, n: u64)
    requires
        written(*old(buf)).len() + 8 <= isize::MAX,
    ensures
        written(*final(buf)) == written(*old(buf)) + be(n as nat, 8),
{
    buf.put_u64(n)
}

/// Calls `BufMut::put_slice` on a `BytesMut`: the bytes are appended.
#[verifier::external_body]
pub(crate) fn put_slice(buf: &mut BytesMut, bytes: &[u8])
    requires
        written(*old(buf)).len() + bytes@.len() <= isize::MAX,
    ensures
        written(*final(buf)) == written(*old(buf)) + bytes@,
{
    buf.put_slice(bytes)
}

/// Calls `BufMut::put_bytes` on a `BytesMut`: `count` times the byte is
/// appended.
#[verifier::external_body]
pub(crate) fn put_bytes(buf: &mut BytesMut, byte: u8, count: usize)
    requires
        written(*old(buf)).len() + count <= isize::MAX,
    ensures
        written(*final(buf)) == written(*old(buf)) + Seq::new(count as nat, |i: int| byte),
{
    buf.put_bytes(byte, count)
}

/// Calls `BytesMut::freeze`: the same bytes, now immutable.
#[verifier::external_body]
pub(crate) fn freeze(buf: BytesMut) -> (bytes: Bytes)
    ensures
        contents(bytes) == written(buf),
{
    buf.freeze()
}

/// Calls `Bytes::new`: no bytes.
#[verifier::external_body]
pub(crate) fn no_bytes() -> (bytes: Bytes)
    ensures
        contents(bytes) == Seq::<u8>::empty(),
{
    Bytes::new()
}

/// Calls `Bytes::copy_from_slice`: the bytes of the slice.
#[verifier::external_body]
pub(crate) fn copy_from_slice(data: &[u8]) -> (bytes: Bytes)
    ensures
        contents(bytes) == data@,
{
    Bytes::copy_from_slice(data)
}

/// `Bytes::clone` gives a buffer with the same bytes.
pub assume_specification[ <bytes::Bytes as Clone>::clone ](bytes: &bytes::Bytes) -> (copy:
    bytes::Bytes)
    ensures
        contents(copy) == contents(*bytes),
;

/// Calls `Bytes::as_ref`: the bytes as a slice.
#[verifier::external_body]
pub(crate) fn as_slice(bytes: &Bytes) -> (slice: &[u8])
    ensures
        slice@ == contents(*bytes),
{
    bytes.as_ref()
}

/// Calls `Buf::get_u32` on a byte slice: the number in its first four bytes.
#[verifier::external_body]
pub(crate) fn get_u32(bytes: &[u8]) -> (n: u32)
    requires
        bytes@.len() >= 4,
    ensures
        n as nat == be_value(bytes@.subrange(0, 4)),
{
    let mut rest = bytes;
    rest.get_u32()
}

/// Calls `Buf::get_u64` on a byte slice: the number in its first eight bytes.
#[verifier::external_body]
pub(crate) fn get_u64(bytes: &[u8]) -> (n: u64)
    requires
        bytes@.len() >= 8,
    ensures
        n as nat == be_value(bytes@.subrange(0, 8)),
{
    let mut rest = bytes;
    rest.get_u64()
}

/// The number in the four bytes from `at` on.
pub(crate) fn u32_at(bytes: &[u8], at: usize) -> (n: u32)
    requires
        at + 4 <= bytes@.len(),
    ensures
        n as nat == be_value(bytes@.subrange(at as int, at + 4)),
{
    let total: usize = bytes.len();
    assert(at + 4 <= total);
    let part = vstd::slice::slice_subrange(bytes, at, at + 4);
    proof {
        assert(part@.subrange(0, 4) =~= bytes@.subrange(at as int, at + 4));
    }
    get_u32(part)
}

/// Tells whether two byte slices hold the same bytes.
pub fn same_bytes(a: &[u8], b: &[u8]) -> (r: bool)
    ensures
        r == (a@ == b@),
{
    if a.len() != b.len() {
        return false;
    }
    let mut i: usize = 0;
    while i < a.len()
        invariant
            i <= a@.len(),
            a@.len() == b@.len(),
            forall|j: int| 0 <= j < i ==> a@[j] == b@[j],
        decreases a@.len() - i,
    {
        if a[i] != b[i] {
            return false;
        }
        i += 1;
    }
    proof {
        assert(a@ =~= b@);
    }
    true
}

/// The twenty bytes from `at` on.
pub(crate) fn id_at(bytes: &[u8], at: usize) -> (id: [u8; 20])
    requires
        at + 20 <= bytes@.len(),
    ensures
        id@ == bytes@.subrange(at as int, at + 20),
{
    let mut id: [u8; 20] = [0u8; 20];
    let total: usize = bytes.len();
    let mut i: usize = 0;
    while i < 20
        invariant
            i <= 20,
            at + 20 <= total == bytes@.len(),
            forall|j: int| 0 <= j < i ==> id@[j] == bytes@[at + j],
        decreases 20 - i,
    {
        id[i] = bytes[at + i];
        i += 1;
    }
    proof {
        assert(id@ =~= bytes@.subrange(at as int, at + 20));
    }
    id
}

/// Numbers are written with the most significant byte first.
pub proof fn law_most_significant_byte_first(n: nat)
    ensures
        n < 0x1_0000 ==> be(n, 2) == seq![(n / 0x100) as u8, (n % 0x100) as u8],
        n < 0x1_0000_0000 ==> be(n, 4) == seq![
            (n / 0x100_0000) as u8,
            (n / 0x1_0000 % 0x100) as u8,
            (n / 0x100 % 0x100) as u8,
            (n % 0x100) as u8,
        ],
{
    reveal_with_fuel(be, 5);
    if n < 0x1_0000 {
        assert(be(n, 2) =~= seq![(n / 0x100) as u8, (n % 0x100) as u8]);
    }
    if n < 0x1_0000_0000 {
        assert(n / 256 / 256 == n / 0x1_0000);
        assert(n / 256 / 256 / 256 == n / 0x100_0000);
        assert(be(n, 4) =~= seq![
            (n / 0x100_0000) as u8,
            (n / 0x1_0000 % 0x100) as u8,
            (n / 0x100 % 0x100) as u8,
            (n % 0x100) as u8,
        ]);
    }
}

/// One byte more at the end is two hundred and fifty-six times as much, and
/// that byte.
pub proof fn law_numbers_are_read_byte_by_byte(s: Seq<u8>, b: u8)
    ensures
        be_value(Seq::empty()) == 0,
        be_value(s.push(b)) == 256 * be_value(s) + b,
{
    assert(s.push(b).drop_last() =~= s);
}

} // verus!

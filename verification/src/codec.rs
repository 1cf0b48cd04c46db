//! Big-endian 16-bit fields, and the byte-buffer calls that write and read them.

use bytes::{Buf, BufMut, Bytes};
use vstd::prelude::*;

verus! {

/// The two bytes of `n`, most significant first.
pub open spec fn be16(n: u16) -> Seq<u8> {
    seq![(n / 256) as u8, (n % 256) as u8]
}

/// The number whose big-endian bytes are `hi` and `lo`.
pub open spec fn be16_value(hi: u8, lo: u8) -> u16 {
    (hi * 256 + lo) as u16
}

/// The number stored in the two bytes of `bytes` that start at `pos`.
pub open spec fn u16_at(bytes: Seq<u8>, pos: int) -> u16 {
    be16_value(bytes[pos], bytes[pos + 1])
}

/// What a 16-bit field keeps of a length: its low 16 bits.
pub open spec fn low16(n: int) -> u16 {
    (n % 0x1_0000) as u16
}

/// Reading back the bytes of a number gives the number.
pub proof fn lemma_be16_round_trip(n: u16)
    ensures
        be16(n).len() == 2,
        be16_value(be16(n)[0], be16(n)[1]) == n,
{
}

/// A length that fits in 16 bits is kept whole.
pub proof fn lemma_low16_of_small(n: int)
    requires
        0 <= n <= 0xFFFF,
    ensures
        low16(n) == n,
{
}

/// Narrows a length to the 16 bits that a field holds.
pub fn to_u16(n: usize) -> (r: u16)
    ensures
        r == low16(n as int),
{
    assert((n as u16) == ((n % 0x1_0000) as u16)) by (bit_vector);
    #[verifier::truncate]
    (n as u16)
}

/// `bytes::Bytes`, a buffer of bytes that is shared without copying.
/// Nothing of its inside is known here; what it holds is `bytes_view`.
#[verifier::external_type_specification]
#[verifier::external_body]
pub struct ExBytes(bytes::Bytes);

/// The bytes that a `Bytes` buffer holds, in order.
pub uninterp spec fn bytes_view(b: Bytes) -> Seq<u8>;

/// `bytes::BufMut::put_u16` on a `Vec<u8>`: appends the two bytes of `n`,
/// most significant first, and leaves what was there untouched. The vector must
/// have room for them below its limit of `isize::MAX` bytes.
#[verifier::external_body]
pub(crate) fn put_u16(buf: &mut Vec<u8>, n: u16)
    requires
        old(buf)@.len() + 2 <= isize::MAX,
    ensures
        final(buf)@ == old(buf)@ + be16(n),
{
    buf.put_u16(n)
}

/// `bytes::BufMut::put` on a `Vec<u8>` with a byte slice as source: appends the
/// whole slice. The vector must have room for it below `isize::MAX` bytes.
#[verifier::external_body]
pub(crate) fn put_slice(buf: &mut Vec<u8>, src: &[u8])
    requires
        old(buf)@.len() + src@.len() <= isize::MAX,
    ensures
        final(buf)@ == old(buf)@ + src@,
{
    buf.put(src)
}

/// `bytes::Buf::get_u16` on a byte slice: the big-endian number in its first
/// two bytes. The slice must hold at least two bytes.
#[verifier::external_body]
pub(crate) fn get_u16(src: &[u8]) -> (n: u16)
    requires
        src@.len() >= 2,
    ensures
        n == be16_value(src@[0], src@[1]),
{
    let mut cursor = src;
    cursor.get_u16()
}

/// `Bytes::from` on a `Vec<u8>`: a buffer that holds the vector's bytes.
#[verifier::external_body]
pub(crate) fn bytes_from_vec(v: Vec<u8>) -> (b: Bytes)
    ensures
        bytes_view(b) == v@,
{
    Bytes::from(v)
}

/// `AsRef<[u8]>::as_ref` on a `Bytes`: the buffer's bytes as a slice.
#[verifier::external_body]
pub(crate) fn bytes_as_slice(b: &Bytes) -> (s: &[u8])
    ensures
        s@ == bytes_view(*b),
{
    b.as_ref()
}

} // verus!

//! What the library takes from the crates `bytes` and `uuid`, and from std,
//! with the contracts that are believed of it.

use crate::wire::{le16, le32};
use bytes::{Buf, BufMut};
use vstd::prelude::*;

verus! {

/// A cheaply cloned run of bytes, read from its front.
#[verifier::external_type_specification]
#[verifier::external_body]
pub struct ExBytes(bytes::Bytes);

/// A growing buffer of bytes.
#[verifier::external_type_specification]
#[verifier::external_body]
pub struct ExBytesMut(bytes::BytesMut);

/// The bytes that are left in a run.
pub uninterp spec fn contents(b: bytes::Bytes) -> Seq<u8>;

/// The bytes that a buffer holds.
pub uninterp spec fn written(b: bytes::BytesMut) -> Seq<u8>;

/// `bytes::Buf::remaining` of `Bytes`: how many bytes are left.
#[verifier::external_body]
pub(crate) fn bytes_remaining(b: &bytes::Bytes) -> (r: usize)
    ensures
        r == contents(*b).len(),
{
    b.remaining()
}

/// `bytes::Buf::get_u8` of `Bytes`: takes the first byte off. It panics where
/// none is left.
#[verifier::external_body]
pub(crate) fn bytes_get_u8(b: &mut bytes::Bytes) -> (r: u8)
    requires
        contents(*old(b)).len() >= 1,
    ensures
        r == contents(*old(b))[0],
        contents(*final(b)) == contents(*old(b)).skip(1),
{
    b.get_u8()
}

/// `bytes::Buf::get_u16_le` of `Bytes`: takes two bytes off, the less
/// significant one first. It panics where fewer are left.
#[verifier::external_body]
pub(crate) fn bytes_get_u16_le(b: &mut bytes::Bytes) -> (r: u16)
    requires
        contents(*old(b)).len() >= 2,
    ensures
        le16(r) == contents(*old(b)).take(2),
        contents(*final(b)) == contents(*old(b)).skip(2),
{
    b.get_u16_le()
}

/// `bytes::Buf::copy_to_slice` of `Bytes`, into an array: takes as many bytes
/// off as the array holds. It panics where fewer are left.
#[verifier::external_body]
pub(crate) fn bytes_copy_to_array<const N: usize>(b: &mut bytes::Bytes) -> (r: [u8; N])
    requires
        contents(*old(b)).len() >= N,
    ensures
        r@ == contents(*old(b)).take(N as int),
        contents(*final(b)) == contents(*old(b)).skip(N as int),
{
    let mut out = [0u8; N];
    b.copy_to_slice(&mut out);
    out
}

/// `bytes::Buf::copy_to_bytes` of `Bytes`: takes the first `len` bytes off, as a
/// run of their own. It panics where fewer are left.
#[verifier::external_body]
pub(crate) fn bytes_copy_to_bytes(b: &mut bytes::Bytes, len: usize) -> (r: bytes::Bytes)
    requires
        contents(*old(b)).len() >= len,
    ensures
        contents(r) == contents(*old(b)).take(len as int),
        contents(*final(b)) == contents(*old(b)).skip(len as int),
{
    b.copy_to_bytes(len)
}

/// `Clone::clone` of `bytes::Bytes`: the same bytes.
#[verifier::external_body]
pub(crate) fn bytes_clone(b: &bytes::Bytes) -> (r: bytes::Bytes)
    ensures
        contents(r) == contents(*b),
{
    b.clone()
}

/// `bytes::BytesMut::with_capacity`: an empty buffer. It panics where the
/// capacity exceeds `isize::MAX`, which the bound keeps away from.
#[verifier::external_body]
pub(crate) fn bytes_mut_with_capacity(capacity: usize) -> (r: bytes::BytesMut)
    requires
        capacity <= 0x3fff_ffff,
    ensures
        written(r) == Seq::<u8>::empty(),
{
    bytes::BytesMut::with_capacity(capacity)
}

/// `bytes::BufMut::put_u8` of `BytesMut`: appends a byte. A buffer that has to
/// grow beyond `isize::MAX` panics; it may double, so the bound stays well below.
#[verifier::external_body]
pub(crate) fn bytes_mut_put_u8(b: &mut bytes::BytesMut, n: u8)
    requires
        written(*old(b)).len() + 1 <= 0x3fff_ffff,
    ensures
        written(*final(b)) == written(*old(b)).push(n),
{
    b.put_u8(n)
}

/// `bytes::BufMut::put_u16_le` of `BytesMut`: appends two bytes, the less
/// significant one first. The bound is that of `bytes_mut_put_u8`.
#[verifier::external_body]
pub(crate) fn bytes_mut_put_u16_le(b: &mut bytes::BytesMut, n: u16)
    requires
        written(*old(b)).len() + 2 <= 0x3fff_ffff,
    ensures
        written(*final(b)) == written(*old(b)) + le16(n),
{
    b.put_u16_le(n)
}

/// `bytes::BufMut::put_u32_le` of `BytesMut`: appends four bytes, the least
/// significant one first. The bound is that of `bytes_mut_put_u8`.
#[verifier::external_body]
pub(crate) fn bytes_mut_put_u32_le(b: &mut bytes::BytesMut, n: u32)
    requires
        written(*old(b)).len() + 4 <= 0x3fff_ffff,
    ensures
        written(*final(b)) == written(*old(b)) + le32(n),
{
    b.put_u32_le(n)
}

/// `bytes::BufMut::put_slice` of `BytesMut`: appends the bytes of a slice. The
/// bound is that of `bytes_mut_put_u8`.
#[verifier::external_body]
pub(crate) fn bytes_mut_put_slice(b: &mut bytes::BytesMut, src: &[u8])
    requires
        written(*old(b)).len() + src@.len() <= 0x3fff_ffff,
    ensures
        written(*final(b)) == written(*old(b)) + src@,
{
    b.put_slice(src)
}

/// `bytes::BufMut::put` of `BytesMut`, with a `Bytes`: appends all that is left
/// in the run. The bound is that of `bytes_mut_put_u8`.
#[verifier::external_body]
pub(crate) fn bytes_mut_put(b: &mut bytes::BytesMut, src: bytes::Bytes)
    requires
        written(*old(b)).len() + contents(src).len() <= 0x3fff_ffff,
    ensures
        written(*final(b)) == written(*old(b)) + contents(src),
{
    b.put(src)
}

/// `bytes::BytesMut::freeze`: the bytes of the buffer as a run.
#[verifier::external_body]
pub(crate) fn bytes_mut_freeze(b: bytes::BytesMut) -> (r: bytes::Bytes)
    ensures
        contents(r) == written(b),
{
    b.freeze()
}

/// `bytes::Bytes::from` of a vector: the same bytes.
#[verifier::external_body]
pub(crate) fn bytes_from_vec(v: Vec<u8>) -> (r: bytes::Bytes)
    ensures
        contents(r) == v@,
{
    bytes::Bytes::from(v)
}

/// `bytes::Bytes::from` of a string: its UTF-8 bytes.
#[verifier::external_body]
pub(crate) fn bytes_from_string(s: String) -> (r: bytes::Bytes)
    ensures
        contents(r) == vstd::utf8::encode_utf8(s@),
{
    bytes::Bytes::from(s)
}

/// The text that bytes are read as, whatever is no UTF-8 replaced.
pub uninterp spec fn utf8_lossy(bytes: Seq<u8>) -> Seq<char>;

/// `String::from_utf8_lossy`, as an owned string. How what is no UTF-8 is
/// replaced is left unsaid.
#[verifier::external_body]
pub(crate) fn string_from_utf8_lossy(bytes: &[u8]) -> (r: String)
    ensures
        r@ == utf8_lossy(bytes@),
        vstd::utf8::valid_utf8(bytes@) ==> r@ == vstd::utf8::decode_utf8(bytes@),
{
    String::from_utf8_lossy(bytes).into_owned()
}

/// A hexadecimal digit, in lower case.
pub open spec fn hex_digit(n: int) -> char {
    if n < 10 {
        (n + 48) as char
    } else {
        (n + 87) as char
    }
}

/// How many hyphens stand before place `i` of a UUID's text.
pub open spec fn hyphens_before(i: int) -> int {
    if i <= 8 {
        0
    } else if i <= 13 {
        1
    } else if i <= 18 {
        2
    } else if i <= 23 {
        3
    } else {
        4
    }
}

/// The text of a UUID: 32 lower-case hexadecimal digits, the most significant
/// first, with hyphens at the places 8, 13, 18 and 23.
pub open spec fn uuid_text(id: u128) -> Seq<char> {
    Seq::new(
        36,
        |i: int|
            if i == 8 || i == 13 || i == 18 || i == 23 {
                '-'
            } else {
                hex_digit(
                    id as int / vstd::arithmetic::power::pow(16, (31 - (i - hyphens_before(i))) as nat)
                        % 16,
                )
            },
    )
}

/// The UUID that a text is read as, if any.
pub uninterp spec fn parsed_uuid(s: Seq<char>) -> Option<u128>;

/// `to_string` of `uuid::Uuid`, which is made from its 128 bits by
/// `Uuid::from_u128`: the hyphenated text in lower case.
#[verifier::external_body]
pub(crate) fn uuid_to_string(id: u128) -> (r: String)
    ensures
        r@ == uuid_text(id),
{
    uuid::Uuid::from_u128(id).to_string()
}

/// If a text is that of a UUID, it is read as that UUID.
pub open spec fn read_back(s: Seq<char>) -> bool {
    forall|id: u128| s == #[trigger] uuid_text(id) ==> parsed_uuid(s) == Some(id)
}

/// `uuid::Uuid::parse_str`, by its 128 bits (`Uuid::as_u128`). Of the texts that
/// it accepts, only the hyphenated lower-case one is described here.
#[verifier::external_body]
pub(crate) fn uuid_parse_str(s: &str) -> (r: Option<u128>)
    ensures
        r == parsed_uuid(s@),
        forall|id: u128| s@ == #[trigger] uuid_text(id) ==> r == Some(id),
{
    match uuid::Uuid::parse_str(s) {
        Ok(u) => Some(u.as_u128()),
        Err(_) => None,
    }
}

/// A UUID is of version 4, of those that are drawn at random, and of the usual
/// variant.
pub open spec fn drawn(id: u128) -> bool {
    id & 0xf000_c000_0000_0000_0000 == 0x4000_8000_0000_0000_0000
}

/// `uuid::Uuid::new_v4`, by its 128 bits: drawn at random but for the version,
/// which is 4, and the variant. It panics where the machine gives no randomness.
#[verifier::external_body]
pub(crate) fn uuid_new_v4() -> (r: u128)
    ensures
        drawn(r),
{
    uuid::Uuid::new_v4().as_u128()
}

} // verus!

//! Integers as they lie in memory.
//!
//! A record's length prefix and the payload of a fixed-size element are the
//! bytes that the machine itself holds for the value: its native byte order.
//! The specifications below say what those bytes are on either kind of
//! machine, over [`vstd::endian::endianness`], and prove that reading
//! undoes writing.
use vstd::bytes::*;
use vstd::endian::*;
use vstd::prelude::*;

verus! {

/// The bytes `le` of a little-endian representation, put in the order in
/// which this machine stores them.
pub open spec fn native_order(le: Seq<u8>) -> Seq<u8> {
    match endianness() {
        Endian::Little => le,
        Endian::Big => le.reverse(),
    }
}

/// Reordering twice gives the bytes back, and never changes their number.
pub proof fn lemma_native_order(s: Seq<u8>)
    ensures
        native_order(s).len() == s.len(),
        native_order(native_order(s)) == s,
{
    assert(s.reverse().reverse() =~= s);
}

/// The two bytes that hold `x` in memory.
pub open spec fn spec_u16_ne_bytes(x: u16) -> Seq<u8> {
    native_order(spec_u16_to_le_bytes(x))
}

/// The value that the two bytes `b` hold.
pub open spec fn spec_u16_from_ne_bytes(b: Seq<u8>) -> u16 {
    spec_u16_from_le_bytes(native_order(b))
}

/// The four bytes that hold `x` in memory.
pub open spec fn spec_u32_ne_bytes(x: u32) -> Seq<u8> {
    native_order(spec_u32_to_le_bytes(x))
}

/// The value that the four bytes `b` hold.
pub open spec fn spec_u32_from_ne_bytes(b: Seq<u8>) -> u32 {
    spec_u32_from_le_bytes(native_order(b))
}

/// The eight bytes that hold `x` in memory.
pub open spec fn spec_u64_ne_bytes(x: u64) -> Seq<u8> {
    native_order(spec_u64_to_le_bytes(x))
}

/// The value that the eight bytes `b` hold.
pub open spec fn spec_u64_from_ne_bytes(b: Seq<u8>) -> u64 {
    spec_u64_from_le_bytes(native_order(b))
}

/// A `u16` takes two bytes, and reading them gives it back.
pub proof fn lemma_u16_ne_round_trip(x: u16)
    ensures
        spec_u16_ne_bytes(x).len() == 2,
        spec_u16_from_ne_bytes(spec_u16_ne_bytes(x)) == x,
{
    lemma_auto_spec_u16_to_from_le_bytes();
    lemma_native_order(spec_u16_to_le_bytes(x));
}

/// A `u32` takes four bytes, and reading them gives it back.
pub proof fn lemma_u32_ne_round_trip(x: u32)
    ensures
        spec_u32_ne_bytes(x).len() == 4,
        spec_u32_from_ne_bytes(spec_u32_ne_bytes(x)) == x,
{
    lemma_auto_spec_u32_to_from_le_bytes();
    lemma_native_order(spec_u32_to_le_bytes(x));
}

/// A `u64` takes eight bytes, and reading them gives it back.
pub proof fn lemma_u64_ne_round_trip(x: u64)
    ensures
        spec_u64_ne_bytes(x).len() == 8,
        spec_u64_from_ne_bytes(spec_u64_ne_bytes(x)) == x,
{
    lemma_auto_spec_u64_to_from_le_bytes();
    lemma_native_order(spec_u64_to_le_bytes(x));
}

/// Calls `u16::to_ne_bytes`. Its documentation gives the result as
/// `to_le_bytes` on a little-endian target and `to_be_bytes`, the same bytes
/// reversed, on a big-endian one.
#[verifier::external_body]
pub(crate) fn u16_to_ne_bytes(x: u16) -> (r: [u8; 2])
    ensures
        r@ == spec_u16_ne_bytes(x),
{
    x.to_ne_bytes()
}

/// Calls `u16::from_ne_bytes`, which reads the array as `from_le_bytes` does
/// on a little-endian target and as `from_be_bytes` does on a big-endian one.
#[verifier::external_body]
pub(crate) fn u16_from_ne_bytes(b: [u8; 2]) -> (x: u16)
    ensures
        x == spec_u16_from_ne_bytes(b@),
{
    u16::from_ne_bytes(b)
}

/// Calls `u32::to_ne_bytes`. Its documentation gives the result as
/// `to_le_bytes` on a little-endian target and `to_be_bytes`, the same bytes
/// reversed, on a big-endian one.
#[verifier::external_body]
pub(crate) fn u32_to_ne_bytes(x: u32) -> (r: [u8; 4])
    ensures
        r@ == spec_u32_ne_bytes(x),
{
    x.to_ne_bytes()
}

/// Calls `u32::from_ne_bytes`, which reads the array as `from_le_bytes` does
/// on a little-endian target and as `from_be_bytes` does on a big-endian one.
#[verifier::external_body]
pub(crate) fn u32_from_ne_bytes(b: [u8; 4]) -> (x: u32)
    ensures
        x == spec_u32_from_ne_bytes(b@),
{
    u32::from_ne_bytes(b)
}

/// Calls `u64::to_ne_bytes`. Its documentation gives the result as
/// `to_le_bytes` on a little-endian target and `to_be_bytes`, the same bytes
/// reversed, on a big-endian one.
#[verifier::external_body]
pub(crate) fn u64_to_ne_bytes(x: u64) -> (r: [u8; 8])
    ensures
        r@ == spec_u64_ne_bytes(x),
{
    x.to_ne_bytes()
}

/// Calls `u64::from_ne_bytes`, which reads the array as `from_le_bytes` does
/// on a little-endian target and as `from_be_bytes` does on a big-endian one.
#[verifier::external_body]
pub(crate) fn u64_from_ne_bytes(b: [u8; 8]) -> (x: u64)
    ensures
        x == spec_u64_from_ne_bytes(b@),
{
    u64::from_ne_bytes(b)
}

} // verus!

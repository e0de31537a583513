//! Big-endian integer extraction from byte buffers.
//!
//! The ITCH wire format stores every multi-byte field big-endian. The spec
//! function [`be_bytes`] is the mathematical meaning of such a field; the
//! executable readers extract one field each and are specified exactly
//! against it.

use byteorder::ByteOrder;
use vstd::prelude::*;

verus! {

/// The big-endian integer value of the `n` bytes of `s` starting at index
/// `i`, with `s[i]` the most significant byte.
pub open spec fn be_bytes(s: Seq<u8>, i: int, n: nat) -> int
    decreases n,
{
    if n == 0 {
        0
    } else {
        be_bytes(s, i, (n - 1) as nat) * 256 + s[i + n - 1]
    }
}

/// Relies on byteorder's `BigEndian::read_u16`: the first two bytes of the
/// slice, big-endian. It panics on a slice shorter than two bytes, which the
/// precondition rules out.
#[verifier::external_body]
pub fn be_u16_at(b: &Vec<u8>, at: usize) -> (r: u16)
    requires
        at + 2 <= b@.len(),
    ensures
        r as int == be_bytes(b@, at as int, 2),
{
    byteorder::BigEndian::read_u16(&b[at..])
}

/// Relies on byteorder's `BigEndian::read_u32`: the first four bytes of the
/// slice, big-endian. It panics on a slice shorter than four bytes, which
/// the precondition rules out.
#[verifier::external_body]
pub fn be_u32_at(b: &Vec<u8>, at: usize) -> (r: u32)
    requires
        at + 4 <= b@.len(),
    ensures
        r as int == be_bytes(b@, at as int, 4),
{
    byteorder::BigEndian::read_u32(&b[at..])
}

/// Relies on byteorder's `BigEndian::read_u48`: the first six bytes of the
/// slice as a big-endian integer stored in a `u64`. It panics on a slice
/// shorter than six bytes, which the precondition rules out.
#[verifier::external_body]
pub fn be_u48_at(b: &Vec<u8>, at: usize) -> (r: u64)
    requires
        at + 6 <= b@.len(),
    ensures
        r as int == be_bytes(b@, at as int, 6),
{
    byteorder::BigEndian::read_u48(&b[at..])
}

/// Relies on byteorder's `BigEndian::read_u64`: the first eight bytes of the
/// slice, big-endian. It panics on a slice shorter than eight bytes, which
/// the precondition rules out.
#[verifier::external_body]
pub fn be_u64_at(b: &Vec<u8>, at: usize) -> (r: u64)
    requires
        at + 8 <= b@.len(),
    ensures
        r as int == be_bytes(b@, at as int, 8),
{
    byteorder::BigEndian::read_u64(&b[at..])
}

/// The byte at `at`, as a plain bounds-checked read.
pub fn u8_at(b: &Vec<u8>, at: usize) -> (r: u8)
    requires
        at < b@.len(),
    ensures
        r == b@[at as int],
{
    b[at]
}

} // verus!

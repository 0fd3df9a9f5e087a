//! Byte-level primitives: integers in a given byte order, and buffer reservation.

use byteordered::{Endian, Endianness};
use std::collections::TryReserveError;
use vstd::prelude::*;

verus! {

/// The byte order in which multi-byte fields are laid out.
#[derive(Debug, Clone, Copy, PartialEq, Eq, Structural)]
pub enum ByteOrder {
    Little,
    Big,
}

/// `std::io::Error`, the error of byteordered's reads, carried through opaquely.
#[verifier::external_type_specification]
#[verifier::external_body]
pub struct ExIoError(std::io::Error);

/// The unsigned value of the first four bytes of `b` in the given order.
pub open spec fn u32_of_bytes(b: Seq<u8>, order: ByteOrder) -> int {
    match order {
        ByteOrder::Little => b[0] + 256 * b[1] + 65536 * b[2] + 16777216 * b[3],
        ByteOrder::Big => b[3] + 256 * b[2] + 65536 * b[1] + 16777216 * b[0],
    }
}

/// The two's-complement value of the first four bytes of `b` in the given order.
pub open spec fn i32_of_bytes(b: Seq<u8>, order: ByteOrder) -> int {
    let u = u32_of_bytes(b, order);
    if u >= 0x8000_0000 {
        u - 0x1_0000_0000
    } else {
        u
    }
}

/// The signed 32-bit field starting at `pos` in `bytes`.
pub open spec fn i32_at(bytes: Seq<u8>, pos: int, order: ByteOrder) -> i32 {
    i32_of_bytes(bytes.subrange(pos, pos + 4), order) as i32
}

/// Relies on byteordered's `Endian::read_i32` over a byte slice: it reads the
/// first four bytes as a two's-complement integer in the given order, and
/// fails (as `Read::read_exact` does) exactly when fewer than four bytes exist.
#[verifier::external_body]
pub(crate) fn read_i32(bytes: &[u8], order: ByteOrder) -> (r: Result<i32, std::io::Error>)
    ensures
        r is Ok <==> bytes@.len() >= 4,
        r matches Ok(v) ==> v as int == i32_of_bytes(bytes@, order),
{
    let endianness = match order {
        ByteOrder::Little => Endianness::Little,
        ByteOrder::Big => Endianness::Big,
    };
    endianness.read_i32(bytes)
}

/// Relies on `Vec::try_reserve_exact`: it may fail, and never changes the contents.
#[verifier::external_body]
pub(crate) fn reserve_exact(v: &mut Vec<u8>, additional: usize) -> (r: Result<(), TryReserveError>)
    ensures
        final(v)@ == old(v)@,
{
    v.try_reserve_exact(additional)
}

/// Reads the signed 32-bit field starting at `pos`, or `None` when fewer than
/// four bytes remain there.
pub fn read_i32_at(bytes: &[u8], pos: usize, order: ByteOrder) -> (r: Option<i32>)
    requires
        pos <= bytes@.len(),
    ensures
        r is Some <==> bytes@.len() - pos >= 4,
        r matches Some(v) ==> v == i32_at(bytes@, pos as int, order),
{
    let rest = vstd::slice::slice_subrange(bytes, pos, bytes.len());
    match read_i32(rest, order) {
        Ok(v) => {
            assert(rest@.subrange(0, 4) =~= bytes@.subrange(pos as int, pos + 4));
            Some(v)
        },
        Err(_) => None,
    }
}

} // verus!

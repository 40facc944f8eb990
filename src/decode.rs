//! Decoding of single values from the start of a byte slice.

use crate::leb128::{leb128_i128, leb128_u128};
use crate::pod::Pod;
use crate::reader::RawReader;
use vstd::prelude::*;

verus! {

/// The unsigned LEB128 number at the start of `data`, with its length.
pub fn decode_leb128_128(data: &[u8]) -> (r: Option<(u128, u8)>)
    ensures
        r == leb128_u128(data@),
{
    RawReader::new(data).read_u128_leb128()
}

/// The unsigned LEB128 number at the start of `data`, kept to its low 64
/// bits, with its length.
pub fn decode_leb128(data: &[u8]) -> (r: Option<(u64, u8)>)
    ensures
        r == match leb128_u128(data@) {
            Some((v, n)) => Some((v as u64, n)),
            None => None,
        },
{
    match RawReader::new(data).read_u128_leb128() {
        Some((v, s)) => Some((v as u64, s)),
        None => None,
    }
}

/// The signed LEB128 number at the start of `data`, kept to its low 64
/// bits, with its length.
pub fn decode_leb128_s(data: &[u8]) -> (r: Option<(i64, u8)>)
    ensures
        r == match leb128_i128(data@) {
            Some((v, n)) => Some((v as i64, n)),
            None => None,
        },
{
    match RawReader::new(data).read_i128_leb128() {
        Some((v, s)) => Some((#[verifier::truncate] (v as i64), s)),
        None => None,
    }
}

/// The `u16` stored in native byte order in the first two bytes of `data`.
pub fn decode_uhalf(data: &[u8]) -> (r: u16)
    requires
        data@.len() >= 2,
    ensures
        r == u16::spec_from_bytes(data@.take(2)),
{
    RawReader::new(data).read_u16().unwrap()
}

/// The `u32` stored in native byte order in the first four bytes of `data`.
pub fn decode_uword(data: &[u8]) -> (r: u32)
    requires
        data@.len() >= 4,
    ensures
        r == u32::spec_from_bytes(data@.take(4)),
{
    RawReader::new(data).read_u32().unwrap()
}

/// The `u64` stored in native byte order in the first eight bytes of `data`.
pub fn decode_udword(data: &[u8]) -> (r: u64)
    requires
        data@.len() >= 8,
    ensures
        r == u64::spec_from_bytes(data@.take(8)),
{
    RawReader::new(data).read_u64().unwrap()
}

} // verus!

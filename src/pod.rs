//! Plain old data: fixed-width integers that are valid for every bit pattern
//! and can therefore be read straight out of a byte buffer.

use vstd::endian::{endianness, Endian};
use vstd::prelude::*;

verus! {

/// The number whose little-endian byte image is `b`.
pub open spec fn le_value(b: Seq<u8>) -> nat
    decreases b.len(),
{
    if b.len() == 0 {
        0
    } else {
        b[0] as nat + 256 * le_value(b.drop_first())
    }
}

/// The number whose byte image, in the byte order of the machine, is `b`.
pub open spec fn ne_value(b: Seq<u8>) -> nat {
    if endianness() == Endian::Little {
        le_value(b)
    } else {
        le_value(b.reverse())
    }
}

/// A type for which every bit pattern of its width is a valid value.
pub trait Pod: Sized {
    /// The value stored in the native-order byte image `b`.
    spec fn spec_from_bytes(b: Seq<u8>) -> Self;

    /// Reinterprets `b` as a value of this type.
    fn from_bytes(b: &[u8]) -> (r: Self)
        requires
            b@.len() == vstd::layout::size_of::<Self>(),
        ensures
            r == Self::spec_from_bytes(b@),
    ;
}

/// Relies on `u16::from_ne_bytes`: the value stored in two bytes in native order.
#[verifier::external_body]
fn u16_from_ne(b: &[u8]) -> (r: u16)
    requires
        b@.len() == 2,
    ensures
        r as nat == ne_value(b@),
{
    u16::from_ne_bytes([b[0], b[1]])
}

/// Relies on `u32::from_ne_bytes`: the value stored in four bytes in native order.
#[verifier::external_body]
fn u32_from_ne(b: &[u8]) -> (r: u32)
    requires
        b@.len() == 4,
    ensures
        r as nat == ne_value(b@),
{
    u32::from_ne_bytes([b[0], b[1], b[2], b[3]])
}

/// Relies on `u64::from_ne_bytes`: the value stored in eight bytes in native order.
#[verifier::external_body]
fn u64_from_ne(b: &[u8]) -> (r: u64)
    requires
        b@.len() == 8,
    ensures
        r as nat == ne_value(b@),
{
    u64::from_ne_bytes([b[0], b[1], b[2], b[3], b[4], b[5], b[6], b[7]])
}

/// Relies on `u128::from_ne_bytes`: the value stored in sixteen bytes in native order.
#[verifier::external_body]
fn u128_from_ne(b: &[u8]) -> (r: u128)
    requires
        b@.len() == 16,
    ensures
        r as nat == ne_value(b@),
{
    u128::from_ne_bytes([
        b[0], b[1], b[2], b[3], b[4], b[5], b[6], b[7],
        b[8], b[9], b[10], b[11], b[12], b[13], b[14], b[15],
    ])
}

proof fn lemma_single_byte(b: Seq<u8>)
    requires
        b.len() == 1,
    ensures
        ne_value(b) == b[0] as nat,
{
    assert(b.reverse() =~= b);
    assert(le_value(b.drop_first()) == 0);
}

impl Pod for u8 {
    open spec fn spec_from_bytes(b: Seq<u8>) -> u8 {
        ne_value(b) as u8
    }

    fn from_bytes(b: &[u8]) -> (r: u8) {
        broadcast use vstd::layout::layout_of_primitives;

        proof {
            lemma_single_byte(b@);
        }
        b[0]
    }
}

impl Pod for i8 {
    open spec fn spec_from_bytes(b: Seq<u8>) -> i8 {
        ne_value(b) as i8
    }

    fn from_bytes(b: &[u8]) -> (r: i8) {
        broadcast use vstd::layout::layout_of_primitives;

        proof {
            lemma_single_byte(b@);
        }
        b[0] as i8
    }
}

impl Pod for u16 {
    open spec fn spec_from_bytes(b: Seq<u8>) -> u16 {
        ne_value(b) as u16
    }

    fn from_bytes(b: &[u8]) -> (r: u16) {
        broadcast use vstd::layout::layout_of_primitives;

        u16_from_ne(b)
    }
}

impl Pod for i16 {
    open spec fn spec_from_bytes(b: Seq<u8>) -> i16 {
        ne_value(b) as i16
    }

    fn from_bytes(b: &[u8]) -> (r: i16) {
        broadcast use vstd::layout::layout_of_primitives;

        u16_from_ne(b) as i16
    }
}

impl Pod for u32 {
    open spec fn spec_from_bytes(b: Seq<u8>) -> u32 {
        ne_value(b) as u32
    }

    fn from_bytes(b: &[u8]) -> (r: u32) {
        broadcast use vstd::layout::layout_of_primitives;

        u32_from_ne(b)
    }
}

impl Pod for i32 {
    open spec fn spec_from_bytes(b: Seq<u8>) -> i32 {
        ne_value(b) as i32
    }

    fn from_bytes(b: &[u8]) -> (r: i32) {
        broadcast use vstd::layout::layout_of_primitives;

        u32_from_ne(b) as i32
    }
}

impl Pod for u64 {
    open spec fn spec_from_bytes(b: Seq<u8>) -> u64 {
        ne_value(b) as u64
    }

    fn from_bytes(b: &[u8]) -> (r: u64) {
        broadcast use vstd::layout::layout_of_primitives;

        u64_from_ne(b)
    }
}

impl Pod for i64 {
    open spec fn spec_from_bytes(b: Seq<u8>) -> i64 {
        ne_value(b) as i64
    }

    fn from_bytes(b: &[u8]) -> (r: i64) {
        broadcast use vstd::layout::layout_of_primitives;

        u64_from_ne(b) as i64
    }
}

impl Pod for u128 {
    open spec fn spec_from_bytes(b: Seq<u8>) -> u128 {
        ne_value(b) as u128
    }

    fn from_bytes(b: &[u8]) -> (r: u128) {
        broadcast use vstd::layout::layout_of_primitives;

        u128_from_ne(b)
    }
}

impl Pod for i128 {
    open spec fn spec_from_bytes(b: Seq<u8>) -> i128 {
        ne_value(b) as i128
    }

    fn from_bytes(b: &[u8]) -> (r: i128) {
        broadcast use vstd::layout::layout_of_primitives;

        u128_from_ne(b) as i128
    }
}

} // verus!

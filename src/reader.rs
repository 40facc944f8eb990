//! A cursor over an immutable byte buffer that hands out fixed-width
//! integers, byte runs, C strings and LEB128 numbers, checking bounds and
//! alignment.

use crate::pod::Pod;
use vstd::arithmetic::div_mod::{lemma_add_mod_noop, lemma_mod_sub_multiples_vanish, lemma_small_mod};
use vstd::arithmetic::power2::is_pow2;
use vstd::layout::{align_of, size_of};
use vstd::prelude::*;

verus! {

/// Relies on `<[u8]>::as_ptr`: the address of the first byte of `data`.
#[verifier::external_body]
fn start_address(data: &[u8]) -> (r: usize) {
    data.as_ptr() as usize
}

/// Whether `n` is a power of two.
fn is_power_of_two(n: usize) -> (r: bool)
    ensures
        r == is_pow2(n as int),
{
    reveal(is_pow2);
    let mut m = n;
    while m > 1 && m % 2 == 0
        invariant
            is_pow2(n as int) == is_pow2(m as int),
        decreases m,
    {
        proof {
            reveal(is_pow2);
        }
        m = m / 2;
    }
    m == 1
}

/// The number of bytes from address `addr` to the next multiple of `to`.
pub open spec fn padding(addr: int, to: int) -> int {
    if addr % to == 0 {
        0
    } else {
        to - addr % to
    }
}

/// A read position in a borrowed byte buffer. Every read either succeeds
/// and consumes what it returns, or fails and leaves the position where it
/// was.
pub struct RawReader<'data> {
    /// The bytes not read yet.
    data: &'data [u8],
    /// The address of the first byte of the buffer.
    base: usize,
    /// The number of bytes read so far.
    pos: usize,
}

impl<'data> View for RawReader<'data> {
    type V = Seq<u8>;

    /// The bytes not read yet.
    closed spec fn view(&self) -> Seq<u8> {
        self.data@
    }
}

impl<'data> RawReader<'data> {
    #[verifier::type_invariant]
    closed spec fn inv(self) -> bool {
        self.pos + self.data@.len() <= usize::MAX
    }

    /// The memory address of the next unread byte.
    pub closed spec fn address(&self) -> int {
        self.base + self.pos
    }

    /// `self` is `before` with its first `n` bytes read.
    pub open spec fn advanced(&self, before: &RawReader, n: int) -> bool {
        &&& 0 <= n <= before@.len()
        &&& self@ == before@.skip(n)
        &&& self.address() == before.address() + n
    }

    /// A reader at the start of `data`.
    pub fn new(data: &'data [u8]) -> (r: RawReader<'data>)
        ensures
            r@ == data@,
    {
        let len = data.len();
        assert(data@.len() == len);
        RawReader { data, base: start_address(data), pos: 0 }
    }

    /// The bytes not read yet.
    pub fn remaining(&self) -> (r: &'data [u8])
        ensures
            r@ == self@,
    {
        self.data
    }

    /// Succeeds if `len` bytes are left to read.
    pub fn ensure(&self, len: usize) -> (r: Option<()>)
        ensures
            r is Some <==> len <= self@.len(),
    {
        if len > self.data.len() {
            return None;
        }
        Some(())
    }

    /// Consumes `len` bytes, which must be there.
    fn take(&mut self, len: usize) -> (r: &'data [u8])
        requires
            len <= old(self)@.len(),
        ensures
            r@ == old(self)@.take(len as int),
            final(self).advanced(old(self), len as int),
    {
        proof {
            use_type_invariant(&*self);
        }
        let (a, b) = self.data.split_at(len);
        self.data = b;
        self.pos = self.pos + len;
        a
    }

    /// The address of the next unread byte modulo `to`.
    fn address_mod(&self, to: usize) -> (r: usize)
        requires
            to > 0,
        ensures
            r == self.address() % (to as int),
    {
        proof {
            lemma_add_mod_noop(self.base as int, self.pos as int, to as int);
        }
        let a = self.base % to;
        let b = self.pos % to;
        if a >= to - b {
            proof {
                lemma_mod_sub_multiples_vanish(a + b, to as int);
                lemma_small_mod((a + b - to) as nat, to as nat);
            }
            a - (to - b)
        } else {
            proof {
                lemma_small_mod((a + b) as nat, to as nat);
            }
            a + b
        }
    }

    /// Moves to the next address that is a multiple of `align_to`, a power of
    /// two. Fails, and stays, if `align_to` is not a power of two or too few
    /// bytes are left.
    pub fn align(&mut self, align_to: usize) -> (r: Option<()>)
        ensures
            r is Some <==> is_pow2(align_to as int) && padding(
                old(self).address(),
                align_to as int,
            ) <= old(self)@.len(),
            r is Some ==> final(self).advanced(
                old(self),
                padding(old(self).address(), align_to as int),
            ),
            r is None ==> *final(self) == *old(self),
    {
        if !is_power_of_two(align_to) {
            return None;
        }
        assert(align_to > 0) by {
            reveal(is_pow2);
        }
        let rem = self.address_mod(align_to);
        let offset = if rem == 0 {
            0
        } else {
            align_to - rem
        };
        if offset > self.data.len() {
            return None;
        }
        self.take(offset);
        Some(())
    }

    /// Consumes and returns the next `len` bytes.
    pub fn read_slice(&mut self, len: usize) -> (r: Option<&'data [u8]>)
        ensures
            r is Some <==> len <= old(self)@.len(),
            r matches Some(s) ==> s@ == old(self)@.take(len as int) && final(self).advanced(
                old(self),
                len as int,
            ),
            r is None ==> *final(self) == *old(self),
    {
        if len > self.data.len() {
            return None;
        }
        Some(self.take(len))
    }

    /// Consumes a NUL-terminated string and returns its bytes without the
    /// terminator; fails if no NUL byte is left.
    pub fn read_cstr(&mut self) -> (r: Option<&'data [u8]>)
        ensures
            r is Some <==> old(self)@.contains(0u8),
            r matches Some(s) ==> {
                &&& !s@.contains(0u8)
                &&& old(self)@.take(s@.len() as int) == s@
                &&& old(self)@[s@.len() as int] == 0
                &&& final(self).advanced(old(self), s@.len() + 1int)
            },
            r is None ==> *final(self) == *old(self),
    {
        let n = self.data.len();
        let mut i: usize = 0;
        while i < n && self.data[i] != 0
            invariant
                i <= n == self@.len(),
                forall|j: int| 0 <= j < i ==> self@[j] != 0,
            decreases n - i,
        {
            i += 1;
        }
        if i == n {
            assert(!self@.contains(0u8));
            return None;
        }
        let s = self.take(i + 1);
        let r = vstd::slice::slice_subrange(s, 0, i);
        assert(r@ =~= old(self)@.take(i as int));
        Some(r)
    }

    /// Reads a value of `T` from the next `size_of::<T>()` bytes, whatever
    /// their alignment.
    pub fn read_pod<T: Pod>(&mut self) -> (r: Option<T>)
        ensures
            r is Some <==> size_of::<T>() <= old(self)@.len(),
            r matches Some(v) ==> v == T::spec_from_bytes(old(self)@.take(size_of::<T>() as int))
                && final(self).advanced(old(self), size_of::<T>() as int),
            r is None ==> *final(self) == *old(self),
    {
        let size = core::mem::size_of::<T>();
        if size > self.data.len() {
            return None;
        }
        let bytes = self.take(size);
        Some(T::from_bytes(bytes))
    }

    /// Reads a value of `T` from the next `size_of::<T>()` bytes, which must
    /// start at an address aligned for `T`.
    pub fn read_pod_ref<T: Pod>(&mut self) -> (r: Option<T>)
        ensures
            r is Some <==> size_of::<T>() <= old(self)@.len() && old(self).address() % align_of::<
                T,
            >() as int == 0,
            r matches Some(v) ==> v == T::spec_from_bytes(old(self)@.take(size_of::<T>() as int))
                && final(self).advanced(old(self), size_of::<T>() as int),
            r is None ==> *final(self) == *old(self),
    {
        broadcast use vstd::layout::align_nonzero;

        let size = core::mem::size_of::<T>();
        let align = core::mem::align_of::<T>();
        if size > self.data.len() || self.address_mod(align) != 0 {
            return None;
        }
        let bytes = self.take(size);
        Some(T::from_bytes(bytes))
    }

    /// Reads `count` consecutive values of `T`, which must start at an
    /// address aligned for `T`.
    pub fn read_pod_slice_ref<T: Pod>(&mut self, count: usize) -> (r: Option<Vec<T>>)
        ensures
            r is Some <==> size_of::<T>() * count <= usize::MAX && size_of::<T>() * count <= old(
                self,
            )@.len() && old(self).address() % align_of::<T>() as int == 0,
            r matches Some(v) ==> {
                &&& v@.len() == count
                &&& forall|i: int|
                    0 <= i < count ==> #[trigger] v@[i] == T::spec_from_bytes(
                        old(self)@.subrange(i * size_of::<T>(), (i + 1) * size_of::<T>()),
                    )
                &&& final(self).advanced(old(self), size_of::<T>() * count)
            },
            r is None ==> *final(self) == *old(self),
    {
        broadcast use vstd::layout::align_nonzero;

        proof {
            use_type_invariant(&*self);
        }
        let size = core::mem::size_of::<T>();
        let align = core::mem::align_of::<T>();
        let total = match size.checked_mul(count) {
            Some(t) => t,
            None => {
                return None;
            },
        };
        if total > self.data.len() || self.address_mod(align) != 0 {
            return None;
        }
        let bytes = self.take(total);
        let mut values: Vec<T> = Vec::new();
        let mut i: usize = 0;
        while i < count
            invariant
                i <= count,
                size * count == total,
                size == size_of::<T>(),
                bytes@.len() == total,
                values@.len() == i,
                forall|j: int|
                    0 <= j < i ==> #[trigger] values@[j] == T::spec_from_bytes(
                        bytes@.subrange(j * size, (j + 1) * size),
                    ),
            decreases count - i,
        {
            assert((i + 1) * size <= count * size) by (nonlinear_arith)
                requires
                    i < count,
            ;
            assert((i + 1) * size == i * size + size) by (nonlinear_arith);
            let element = vstd::slice::slice_subrange(bytes, i * size, (i + 1) * size);
            values.push(T::from_bytes(element));
            i += 1;
        }
        assert forall|j: int| 0 <= j < count implies #[trigger] bytes@.subrange(
            j * size,
            (j + 1) * size,
        ) == old(self)@.subrange(j * size, (j + 1) * size) by {
            assert((j + 1) * size <= count * size) by (nonlinear_arith)
                requires
                    j < count,
            ;
            assert(0 <= j * size) by (nonlinear_arith)
                requires
                    0 <= j,
            ;
            assert(j * size <= (j + 1) * size) by (nonlinear_arith)
                requires
                    0 <= j,
            ;
            assert(bytes@.subrange(j * size, (j + 1) * size) =~= old(self)@.subrange(
                j * size,
                (j + 1) * size,
            ));
        }
        Some(values)
    }

    /// Reads a `u8`.
    pub fn read_u8(&mut self) -> (r: Option<u8>)
        ensures
            r is Some <==> 1 <= old(self)@.len(),
            r matches Some(v) ==> v == old(self)@[0] && final(self).advanced(old(self), 1),
            r is None ==> *final(self) == *old(self),
    {
        broadcast use vstd::layout::layout_of_primitives;

        if self.data.len() == 0 {
            return None;
        }
        let b = self.take(1);
        Some(b[0])
    }

    /// Reads an `i16` stored in native byte order.
    pub fn read_i16(&mut self) -> (r: Option<i16>)
        ensures
            r is Some <==> 2 <= old(self)@.len(),
            r matches Some(v) ==> v == i16::spec_from_bytes(old(self)@.take(2))
                && final(self).advanced(old(self), 2),
            r is None ==> *final(self) == *old(self),
    {
        broadcast use vstd::layout::layout_of_primitives;

        self.read_pod::<i16>()
    }

    /// Reads a `u16` stored in native byte order.
    pub fn read_u16(&mut self) -> (r: Option<u16>)
        ensures
            r is Some <==> 2 <= old(self)@.len(),
            r matches Some(v) ==> v == u16::spec_from_bytes(old(self)@.take(2))
                && final(self).advanced(old(self), 2),
            r is None ==> *final(self) == *old(self),
    {
        broadcast use vstd::layout::layout_of_primitives;

        self.read_pod::<u16>()
    }

    /// Reads an `i32` stored in native byte order.
    pub fn read_i32(&mut self) -> (r: Option<i32>)
        ensures
            r is Some <==> 4 <= old(self)@.len(),
            r matches Some(v) ==> v == i32::spec_from_bytes(old(self)@.take(4))
                && final(self).advanced(old(self), 4),
            r is None ==> *final(self) == *old(self),
    {
        broadcast use vstd::layout::layout_of_primitives;

        self.read_pod::<i32>()
    }

    /// Reads a `u32` stored in native byte order.
    pub fn read_u32(&mut self) -> (r: Option<u32>)
        ensures
            r is Some <==> 4 <= old(self)@.len(),
            r matches Some(v) ==> v == u32::spec_from_bytes(old(self)@.take(4))
                && final(self).advanced(old(self), 4),
            r is None ==> *final(self) == *old(self),
    {
        broadcast use vstd::layout::layout_of_primitives;

        self.read_pod::<u32>()
    }

    /// Reads a `u64` stored in native byte order.
    pub fn read_u64(&mut self) -> (r: Option<u64>)
        ensures
            r is Some <==> 8 <= old(self)@.len(),
            r matches Some(v) ==> v == u64::spec_from_bytes(old(self)@.take(8))
                && final(self).advanced(old(self), 8),
            r is None ==> *final(self) == *old(self),
    {
        broadcast use vstd::layout::layout_of_primitives;

        self.read_pod::<u64>()
    }
}

} // verus!

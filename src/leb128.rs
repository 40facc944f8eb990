//! Unsigned and signed LEB128: little-endian groups of seven bits, the high
//! bit of each byte marking that another byte follows.

use crate::reader::RawReader;
use vstd::arithmetic::div_mod::{lemma_mod_multiples_vanish, lemma_small_mod};
use vstd::arithmetic::power2::{
    lemma2_to64,
    lemma_pow2_adds,
    lemma_pow2_pos,
    lemma_pow2_strictly_increases,
    pow2,
};
use vstd::prelude::*;

verus! {

/// The number that the seven-bit groups of the bytes `b` denote, the first
/// byte least significant.
pub open spec fn leb128_value(b: Seq<u8>) -> nat
    decreases b.len(),
{
    if b.len() == 0 {
        0
    } else {
        (b[0] % 128) as nat + 128 * leb128_value(b.drop_first())
    }
}

/// The index of the first byte of `b` without the continuation bit, or the
/// length of `b` if every byte has it.
pub open spec fn leb128_end(b: Seq<u8>) -> nat
    decreases b.len(),
{
    if b.len() == 0 {
        0
    } else if b[0] < 128 {
        0
    } else {
        1 + leb128_end(b.drop_first())
    }
}

/// The unsigned LEB128 number at the start of `b` and its length in bytes.
/// Groups beyond the 128th bit are dropped. There is none when no byte
/// ends the number, or when it takes more than 255 bytes.
pub open spec fn leb128_u128(b: Seq<u8>) -> Option<(u128, u8)> {
    let t = leb128_end(b);
    if t < b.len() && t < 255 {
        Some((
            (leb128_value(b.take(t + 1int)) % pow2(128)) as u128,
            (t + 1) as u8,
        ))
    } else {
        None
    }
}

/// The number of bytes that reading an unsigned LEB128 number from `b`
/// consumes, whether it succeeds or not: up to and including the first byte
/// without the continuation bit, or all of `b` if there is none.
pub open spec fn leb128_consumed(b: Seq<u8>) -> int {
    let t = leb128_end(b);
    if t < b.len() {
        t + 1int
    } else {
        b.len() as int
    }
}

/// `v`, read from `n` seven-bit groups, sign-extended from its top bit to
/// 128 bits.
pub open spec fn sign_extend(v: u128, n: u8) -> i128 {
    let w = 7 * n;
    if w >= 128 {
        v as i128
    } else if v >= pow2((w - 1) as nat) {
        (v - pow2(w as nat)) as i128
    } else {
        v as i128
    }
}

/// The signed LEB128 number at the start of `b` and its length in bytes.
pub open spec fn leb128_i128(b: Seq<u8>) -> Option<(i128, u8)> {
    match leb128_u128(b) {
        Some((v, n)) => Some((sign_extend(v, n), n)),
        None => None,
    }
}

/// The shortest unsigned LEB128 encoding of `v`.
pub open spec fn leb128_encode(v: nat) -> Seq<u8>
    decreases v,
{
    if v < 128 {
        seq![v as u8]
    } else {
        seq![(v % 128 + 128) as u8] + leb128_encode(v / 128)
    }
}

proof fn lemma_pow2_step(c: nat)
    ensures
        pow2(7 * c + 7) == pow2(7 * c) * 128,
{
    lemma_pow2_adds(7 * c, 7);
    lemma2_to64();
}

proof fn lemma_pow2_128()
    ensures
        pow2(128) == u128::MAX + 1,
        pow2(128) == 4 * pow2(126),
{
    lemma2_to64();
    lemma_pow2_adds(64, 64);
    lemma_pow2_adds(126, 2);
}

/// Appending a byte adds its group at the next seven-bit position.
proof fn lemma_leb128_push(s: Seq<u8>, x: u8)
    ensures
        leb128_value(s.push(x)) == leb128_value(s) + (x % 128) as nat * pow2(7 * s.len()),
    decreases s.len(),
{
    let y = (x % 128) as nat;
    if s.len() == 0 {
        assert(s.push(x).drop_first() =~= Seq::<u8>::empty());
        assert(leb128_value(Seq::<u8>::empty()) == 0);
        lemma2_to64();
        assert(leb128_value(s.push(x)) == y);
    } else {
        let t = s.drop_first();
        assert(s.push(x).drop_first() =~= t.push(x));
        assert(s.push(x)[0] == s[0]);
        lemma_leb128_push(t, x);
        lemma_pow2_step(t.len());
        let p = pow2(7 * t.len());
        assert(7 * t.len() + 7 == 7 * s.len());
        assert(128 * (leb128_value(t) + y * p) == 128 * leb128_value(t) + y * (p * 128))
            by (nonlinear_arith);
        assert(leb128_value(s.push(x)) == (s[0] % 128) as nat + 128 * leb128_value(t.push(x)));
    }
}

/// One step of the decoder: adding the group `x` at position `c` to a value
/// `l` below `2^(7c)`, and what that does modulo `2^128`.
proof fn lemma_leb128_step(l: nat, x: nat, c: nat, v: nat)
    requires
        l < pow2(7 * c),
        x < 128,
        v == l % pow2(128),
    ensures
        l + x * pow2(7 * c) < pow2(7 * c + 7),
        c < 18 ==> v == l && l + x * pow2(7 * c) < pow2(126) && (l + x * pow2(7 * c)) % pow2(128)
            == l + x * pow2(7 * c),
        c == 18 ==> v == l && v + (x % 4) * pow2(126) < pow2(128) && (l + x * pow2(7 * c)) % pow2(
            128,
        ) == v + (x % 4) * pow2(126),
        c > 18 ==> (l + x * pow2(7 * c)) % pow2(128) == v,
{
    let p = pow2(7 * c);
    lemma_pow2_step(c);
    lemma_pow2_128();
    assert(l + x * p < p * 128) by (nonlinear_arith)
        requires
            l < p,
            x < 128,
    ;
    if c < 18 {
        lemma_pow2_strictly_increases(7 * c, 128);
        lemma_small_mod(l, pow2(128));
        if 7 * c + 7 < 126 {
            lemma_pow2_strictly_increases(7 * c + 7, 126);
        }
        lemma_pow2_strictly_increases(126, 128);
        lemma_small_mod(l + x * p, pow2(128));
    } else if c == 18 {
        lemma_pow2_strictly_increases(126, 128);
        lemma_small_mod(l, pow2(128));
        let q = x / 4;
        let r = x % 4;
        assert(l + r * p < 4 * p) by (nonlinear_arith)
            requires
                l < p,
                r < 4,
        ;
        assert(l + x * p == pow2(128) * q + (l + r * p)) by (nonlinear_arith)
            requires
                x == 4 * q + r,
                pow2(128) == 4 * p,
        ;
        lemma_mod_multiples_vanish(q as int, (l + r * p) as int, pow2(128) as int);
        lemma_small_mod(l + r * p, pow2(128));
    } else {
        let e = (7 * c - 128) as nat;
        lemma_pow2_adds(e, 128);
        assert(x * p == pow2(128) * (x * pow2(e))) by (nonlinear_arith)
            requires
                p == pow2(e) * pow2(128),
        ;
        lemma_mod_multiples_vanish((x * pow2(e)) as int, l as int, pow2(128) as int);
    }
}

/// What `leb128_encode` produces: a number that its decoding reads back,
/// in the fewest seven-bit groups that hold it.
proof fn lemma_leb128_encode(v: nat)
    ensures
        leb128_encode(v).len() >= 1,
        leb128_end(leb128_encode(v)) == leb128_encode(v).len() - 1,
        leb128_value(leb128_encode(v)) == v,
        v < pow2(7 * leb128_encode(v).len()),
        leb128_encode(v).len() == 1 || pow2((7 * (leb128_encode(v).len() - 1)) as nat) <= v,
    decreases v,
{
    let e = leb128_encode(v);
    lemma2_to64();
    if v < 128 {
        assert(e.drop_first() =~= Seq::<u8>::empty());
        assert(e[0] as nat == v);
        assert(leb128_value(e) == (e[0] % 128) as nat + 128 * leb128_value(e.drop_first()));
    } else {
        let rest = leb128_encode(v / 128);
        lemma_leb128_encode(v / 128);
        assert(e.drop_first() =~= rest);
        let first = (v % 128 + 128) as u8;
        assert(e[0] == first);
        assert(first as nat == v % 128 + 128);
        assert(first % 128 == v % 128);
        assert(v == 128 * (v / 128) + v % 128);
        assert(leb128_value(e) == (e[0] % 128) as nat + 128 * leb128_value(e.drop_first()));
        let lr = rest.len();
        lemma_pow2_step(lr);
        assert(v < pow2(7 * lr) * 128) by (nonlinear_arith)
            requires
                v / 128 < pow2(7 * lr),
        ;
        if lr > 1 {
            lemma_pow2_step((lr - 1) as nat);
            assert(pow2((7 * (lr - 1)) as nat) * 128 <= v) by (nonlinear_arith)
                requires
                    pow2((7 * (lr - 1)) as nat) <= v / 128,
            ;
        }
    }
}

/// Encoding any 128-bit number as unsigned LEB128 and decoding the bytes
/// gives the number back, and the count of bytes read is the fewest
/// seven-bit groups that hold the number: one at least.
pub proof fn lemma_leb128_round_trip(v: u128)
    ensures
        ({
            let e = leb128_encode(v as nat);
            let n = e.len();
            &&& leb128_u128(e) == Some((v, n as u8))
            &&& 1 <= n
            &&& v < pow2(7 * n)
            &&& n == 1 || pow2((7 * (n - 1)) as nat) <= v
        }),
{
    let e = leb128_encode(v as nat);
    lemma_leb128_encode(v as nat);
    let n = e.len();
    lemma_pow2_128();
    if n > 19 {
        lemma_pow2_strictly_increases(128, (7 * (n - 1)) as nat);
    }
    assert(e.take(n as int) =~= e);
    lemma_small_mod(v as nat, pow2(128));
}

/// The value of the first `n` groups is below `2^(7n)`.
proof fn lemma_leb128_bound(b: Seq<u8>)
    ensures
        leb128_value(b) < pow2(7 * b.len()),
    decreases b.len(),
{
    lemma2_to64();
    if b.len() > 0 {
        lemma_leb128_bound(b.drop_first());
        lemma_pow2_step((b.len() - 1) as nat);
        let rest = leb128_value(b.drop_first());
        let p = pow2(7 * (b.len() - 1) as nat);
        assert((b[0] % 128) as nat + 128 * rest < p * 128) by (nonlinear_arith)
            requires
                rest < p,
                (b[0] % 128) < 128,
        ;
    }
}

impl<'data> RawReader<'data> {
    /// Consumes the bytes up to and including the first one without the
    /// continuation bit, or all bytes if there is none.
    fn skip_continued(&mut self)
        ensures
            final(self).advanced(old(self), leb128_consumed(old(self)@)),
    {
        let ghost start = *self;
        let ghost b = start@;
        let ghost mut n: int = 0;
        assert(b.skip(0) =~= b);
        loop
            invariant
                0 <= n <= b.len(),
                b == start@,
                start == *old(self),
                self.advanced(&start, n),
                forall|j: int| 0 <= j < n ==> b[j] >= 128,
            decreases self@.len(),
        {
            proof {
                leb128_end_of_continued(b, n as nat);
            }
            let byte = match self.read_u8() {
                Some(byte) => byte,
                None => {
                    assert(b.skip(n).len() == 0);
                    return;
                },
            };
            assert(self@ =~= b.skip(n + 1));
            assert(b.skip(n)[0] == byte);
            proof {
                n = n + 1;
            }
            if byte < 128 {
                return;
            }
        }
    }

    /// Reads an unsigned LEB128 number; returns it with the number of bytes
    /// it took. Fails when the bytes run out before a byte without the
    /// continuation bit, or when the number takes more than 255 bytes, a
    /// count that does not fit the result; the bytes read stay consumed, up
    /// to the end of the number or of the buffer.
    pub fn read_u128_leb128(&mut self) -> (r: Option<(u128, u8)>)
        ensures
            r == leb128_u128(old(self)@),
            final(self).advanced(old(self), leb128_consumed(old(self)@)),
    {
        let ghost start = *self;
        let ghost b = start@;
        let mut value: u128 = 0;
        let mut scale: u128 = 1;
        let mut count: u8 = 0;
        proof {
            lemma2_to64();
            assert(b.take(0) =~= Seq::<u8>::empty());
            assert(b.skip(0) =~= b);
            lemma_pow2_pos(128);
            lemma_small_mod(0, pow2(128));
            assert(leb128_value(b.take(0)) == 0);
        }
        loop
            invariant
                count < 255,
                count <= b.len(),
                b == start@,
                start == *old(self),
                self.advanced(&start, count as int),
                forall|j: int| 0 <= j < count ==> b[j] >= 128,
                value == leb128_value(b.take(count as int)) % pow2(128),
                leb128_value(b.take(count as int)) < pow2(7 * count as nat),
                count <= 18 ==> scale == pow2(7 * count as nat),
            decreases 255 - count,
        {
            proof {
                leb128_end_of_continued(b, count as nat);
            }
            let byte = match self.read_u8() {
                Some(byte) => byte,
                None => {
                    assert(count == b.len());
                    assert(b.skip(count as int).len() == 0);
                    assert(leb128_end(b.skip(count as int)) == 0);
                    return None;
                },
            };
            let ghost l = leb128_value(b.take(count as int));
            assert(self@ =~= b.skip(count + 1));
            assert(b.skip(count as int)[0] == byte);
            let x = byte % 128;
            proof {
                assert(b.take(count + 1) =~= b.take(count as int).push(byte));
                lemma_leb128_push(b.take(count as int), byte);
                lemma_leb128_step(l, x as nat, count as nat, value as nat);
                lemma_pow2_128();
                lemma_pow2_step(count as nat);
                if count < 18 {
                    lemma_pow2_strictly_increases((7 * count + 7) as nat, 128);
                }
            }
            if count < 18 {
                value = value + (x as u128) * scale;
                scale = scale * 128;
            } else if count == 18 {
                value = value + ((x % 4) as u128) * scale;
            }
            count = count + 1;
            if byte < 128 {
                return Some((value, count));
            }
            if count == 255 {
                proof {
                    assert(byte == b[count - 1]);
                    leb128_end_of_continued(b, count as nat);
                }
                // The count no longer fits: skip to the end of the number.
                self.skip_continued();
                proof {
                    let rest = b.skip(255);
                    assert(rest.skip(leb128_consumed(rest)) =~= b.skip(255 + leb128_consumed(rest)));
                }
                return None;
            }
        }
    }

    /// Reads a signed LEB128 number: the unsigned number, sign-extended from
    /// the top bit of its last group. Returns it with the number of bytes it
    /// took.
    pub fn read_i128_leb128(&mut self) -> (r: Option<(i128, u8)>)
        ensures
            r == leb128_i128(old(self)@),
            final(self).advanced(old(self), leb128_consumed(old(self)@)),
    {
        let ghost b = self@;
        let (value, count) = match self.read_u128_leb128() {
            Some(read) => read,
            None => {
                return None;
            },
        };
        if count >= 19 {
            return Some((#[verifier::truncate] (value as i128), count));
        }
        let ghost t = leb128_end(b);
        assert(count == t + 1);
        assert(b.take(t + 1int).len() == count);
        proof {
            if 7 * count < 126 {
                lemma_pow2_strictly_increases((7 * count) as nat, 126);
            }
            lemma_leb128_bound(b.take(t + 1int));
            lemma_pow2_strictly_increases((7 * count) as nat, 128);
            lemma_small_mod(leb128_value(b.take(t + 1int)), pow2(128));
            lemma_pow2_128();
        }
        // `2^(7 * count)`, the bound of the groups read.
        let mut m: u128 = 1;
        let mut i: u8 = 0;
        proof {
            lemma2_to64();
        }
        while i < count
            invariant
                i <= count <= 18,
                m == pow2(7 * i as nat),
            decreases count - i,
        {
            proof {
                lemma_pow2_step(i as nat);
                lemma_pow2_strictly_increases((7 * i + 7) as nat, 127);
                lemma_pow2_128();
                lemma_pow2_strictly_increases(127, 128);
            }
            m = m * 128;
            i = i + 1;
        }
        proof {
            lemma_pow2_adds((7 * count - 1) as nat, 1);
            lemma2_to64();
            lemma_pow2_strictly_increases((7 * count) as nat, 127);
            lemma_pow2_strictly_increases(127, 128);
        }
        assert(value < m);
        assert(m <= pow2(126));
        if value >= m / 2 {
            Some(((value as i128) - (m as i128), count))
        } else {
            Some((value as i128, count))
        }
    }
}

/// Reading past `c` continuation bytes: the end lies further on.
proof fn leb128_end_of_continued(b: Seq<u8>, c: nat)
    requires
        c <= b.len(),
        forall|j: int| 0 <= j < c ==> b[j] >= 128,
    ensures
        leb128_end(b) == c + leb128_end(b.skip(c as int)),
    decreases c,
{
    if c > 0 {
        assert(b.skip(1).skip(c - 1) =~= b.skip(c as int));
        leb128_end_of_continued(b.skip(1), (c - 1) as nat);
        assert(b.drop_first() =~= b.skip(1));
    } else {
        assert(b.skip(0) =~= b);
    }
}

} // verus!

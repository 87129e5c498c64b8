//! A forward-only cursor over an in-memory byte buffer, with verified
//! little-endian reads of the fixed-width unsigned integers.

use vstd::prelude::*;

verus! {

/// Why a decode failed.
#[derive(Clone, Copy, Debug, PartialEq, Eq, Structural)]
pub enum DecodeError {
    /// Too few bytes were available, or the underlying transport failed.
    IOFailure,
    /// A buffered compressed payload was not a valid zlib stream.
    DecompressionFailure,
}

/// The number that a byte sequence encodes in little-endian order:
/// the first byte is the least significant.
pub open spec fn le_nat(b: Seq<u8>) -> nat
    decreases b.len(),
{
    if b.len() == 0 {
        0
    } else {
        b[0] as nat + 256 * le_nat(b.skip(1))
    }
}

/// 256 to the power `k`: the number of values a `k`-byte field can hold.
pub open spec fn pow256(k: nat) -> nat
    decreases k,
{
    if k == 0 {
        1
    } else {
        256 * pow256((k - 1) as nat)
    }
}

/// A little-endian number splits at any byte position `k` into its low
/// `k` bytes plus `256^k` times the rest.
pub proof fn lemma_le_nat_split(b: Seq<u8>, k: int)
    requires
        0 <= k <= b.len(),
    ensures
        le_nat(b) == le_nat(b.take(k)) + pow256(k as nat) * le_nat(b.skip(k)),
    decreases k,
{
    if k == 0 {
        assert(b.take(0).len() == 0);
        assert(b.skip(0) =~= b);
        assert(pow256(0) == 1);
        assert(le_nat(b.take(0)) == 0);
        assert(pow256(0) * le_nat(b.skip(0)) == le_nat(b.skip(0))) by (nonlinear_arith)
            requires
                pow256(0) == 1,
        ;
    } else {
        lemma_le_nat_split(b.skip(1), k - 1);
        assert(b.skip(1).take(k - 1) =~= b.take(k).skip(1));
        assert(b.skip(1).skip(k - 1) =~= b.skip(k));
        assert(b.take(k)[0] == b[0]);
        let lo = le_nat(b.take(k).skip(1)) as int;
        let p = pow256((k - 1) as nat) as int;
        let hi = le_nat(b.skip(k)) as int;
        assert(le_nat(b.skip(1)) == lo + p * hi);
        assert(le_nat(b) == b[0] as nat + 256 * le_nat(b.skip(1)));
        assert(le_nat(b.take(k)) == b[0] as nat + 256 * lo);
        assert(pow256(k as nat) == 256 * pow256((k - 1) as nat));
        assert(256 * (lo + p * hi) == 256 * lo + (256 * p) * hi) by (nonlinear_arith);
        assert(le_nat(b) == le_nat(b.take(k)) + pow256(k as nat) * le_nat(b.skip(k)));
    }
}

/// A `k`-byte little-endian number is below `256^k`.
pub proof fn lemma_le_nat_bound(b: Seq<u8>)
    ensures
        le_nat(b) < pow256(b.len()),
    decreases b.len(),
{
    if b.len() == 0 {
    } else {
        lemma_le_nat_bound(b.skip(1));
    }
}

/// A reader over an owned byte buffer. Reads only move the cursor forward;
/// `set_position` can reposition it anywhere within the buffer, which the
/// record-region decoder uses for its alignment correction.
pub struct ByteReader {
    data: Vec<u8>,
    pos: usize,
}

impl ByteReader {
    #[verifier::type_invariant]
    spec fn inv(self) -> bool {
        self.pos <= self.data@.len()
    }

    /// The whole underlying buffer.
    pub closed spec fn bytes(self) -> Seq<u8> {
        self.data@
    }

    /// The cursor offset from the start of the buffer.
    pub closed spec fn cursor(self) -> nat {
        self.pos as nat
    }

    /// The cursor never passes the end of the buffer.
    pub open spec fn wf(self) -> bool {
        self.cursor() <= self.bytes().len()
    }

    /// The bytes not yet consumed.
    pub open spec fn remaining(self) -> Seq<u8> {
        self.bytes().skip(self.cursor() as int)
    }

    pub fn new(data: Vec<u8>) -> (r: Self)
        ensures
            r.bytes() == data@,
            r.cursor() == 0,
    {
        ByteReader { data, pos: 0 }
    }

    pub fn position(&self) -> (p: usize)
        ensures
            p == self.cursor(),
            self.wf(),
    {
        proof {
            use_type_invariant(self);
        }
        self.pos
    }

    pub fn remaining_len(&self) -> (n: usize)
        ensures
            n == self.remaining().len(),
            self.wf(),
    {
        proof {
            use_type_invariant(self);
        }
        self.data.len() - self.pos
    }

    /// Move the cursor to an absolute offset inside the buffer.
    pub fn set_position(&mut self, p: usize)
        requires
            p <= old(self).bytes().len(),
        ensures
            final(self).bytes() == old(self).bytes(),
            final(self).cursor() == p,
            old(self).wf(),
            final(self).wf(),
    {
        proof {
            use_type_invariant(&*self);
        }
        self.pos = p;
    }

    /// Read one byte and advance the cursor past it.
    pub fn read_byte(&mut self) -> (res: Result<u8, DecodeError>)
        ensures
            old(self).wf(),
            final(self).wf(),
            final(self).bytes() == old(self).bytes(),
            old(self).remaining().len() >= 1 ==> res == Ok::<u8, DecodeError>(
                old(self).remaining()[0],
            ) && final(self).cursor() == old(self).cursor() + 1,
            old(self).remaining().len() == 0 ==> res == Err::<u8, DecodeError>(
                DecodeError::IOFailure,
            ) && *final(self) == *old(self),
    {
        proof {
            use_type_invariant(&*self);
        }
        if self.pos < self.data.len() {
            let b = self.data[self.pos];
            self.pos = self.pos + 1;
            Ok(b)
        } else {
            Err(DecodeError::IOFailure)
        }
    }

    /// Read a 16-bit little-endian unsigned integer.
    pub fn read_u16_le(&mut self) -> (res: Result<u16, DecodeError>)
        ensures
            old(self).wf(),
            final(self).wf(),
            final(self).bytes() == old(self).bytes(),
            old(self).remaining().len() >= 2 ==> res == Ok::<u16, DecodeError>(
                le_nat(old(self).remaining().take(2)) as u16,
            ) && final(self).cursor() == old(self).cursor() + 2,
            old(self).remaining().len() < 2 ==> res == Err::<u16, DecodeError>(
                DecodeError::IOFailure,
            ) && *final(self) == *old(self),
    {
        proof {
            use_type_invariant(&*self);
        }
        if self.data.len() - self.pos >= 2 {
            let b0 = self.data[self.pos];
            let b1 = self.data[self.pos + 1];
            self.pos = self.pos + 2;
            let v: u16 = b0 as u16 + b1 as u16 * 256;
            proof {
                let t = old(self).remaining().take(2);
                assert(t[0] == b0 && t[1] == b1);
                lemma_le_nat_2(t);
            }
            Ok(v)
        } else {
            Err(DecodeError::IOFailure)
        }
    }

    /// Read a 32-bit little-endian unsigned integer.
    pub fn read_u32_le(&mut self) -> (res: Result<u32, DecodeError>)
        ensures
            old(self).wf(),
            final(self).wf(),
            final(self).bytes() == old(self).bytes(),
            old(self).remaining().len() >= 4 ==> res == Ok::<u32, DecodeError>(
                le_nat(old(self).remaining().take(4)) as u32,
            ) && final(self).cursor() == old(self).cursor() + 4,
            old(self).remaining().len() < 4 ==> res == Err::<u32, DecodeError>(
                DecodeError::IOFailure,
            ) && *final(self) == *old(self),
    {
        proof {
            use_type_invariant(&*self);
        }
        if self.remaining_len() < 4 {
            return Err(DecodeError::IOFailure);
        }
        let ghost rem = self.remaining();
        let lo = match self.read_u16_le() {
            Ok(v) => v,
            Err(e) => {
                return Err(e);
            },
        };
        let hi = match self.read_u16_le() {
            Ok(v) => v,
            Err(e) => {
                return Err(e);
            },
        };
        let v: u32 = lo as u32 + hi as u32 * 0x10000;
        proof {
            let c0 = old(self).cursor() as int;
            assert(old(self).bytes().skip(c0 + 2) =~= rem.skip(2));
            lemma_le_pair(rem, 2, 4);
            lemma_le_nat_bound(rem.take(2));
            lemma_le_nat_bound(rem.skip(2).take(2));
            lemma_le_nat_bound(rem.take(4));
            assert(pow256(0) == 1);
            assert(pow256(1) == 256);
            assert(pow256(2) == 0x10000);
            assert(pow256(3) == 0x100_0000);
            assert(pow256(4) == 0x1_0000_0000);
            assert(rem.take(2).len() == 2);
            assert(rem.skip(2).take(2).len() == 2);
            assert(lo as nat == le_nat(rem.take(2)));
            assert(hi as nat == le_nat(rem.skip(2).take(2)));
            assert(pow256(2) * le_nat(rem.skip(2).take(2)) == 0x10000 * le_nat(
                rem.skip(2).take(2),
            )) by (nonlinear_arith)
                requires
                    pow256(2) == 0x10000,
            ;
            assert(v as nat == le_nat(rem.take(4)));
            assert(v == le_nat(rem.take(4)) as u32);
        }
        Ok(v)
    }

    /// Read a 64-bit little-endian unsigned integer.
    pub fn read_u64_le(&mut self) -> (res: Result<u64, DecodeError>)
        ensures
            old(self).wf(),
            final(self).wf(),
            final(self).bytes() == old(self).bytes(),
            old(self).remaining().len() >= 8 ==> res == Ok::<u64, DecodeError>(
                le_nat(old(self).remaining().take(8)) as u64,
            ) && final(self).cursor() == old(self).cursor() + 8,
            old(self).remaining().len() < 8 ==> res == Err::<u64, DecodeError>(
                DecodeError::IOFailure,
            ) && *final(self) == *old(self),
    {
        proof {
            use_type_invariant(&*self);
        }
        if self.remaining_len() < 8 {
            return Err(DecodeError::IOFailure);
        }
        let ghost rem = self.remaining();
        let lo = match self.read_u32_le() {
            Ok(v) => v,
            Err(e) => {
                return Err(e);
            },
        };
        let hi = match self.read_u32_le() {
            Ok(v) => v,
            Err(e) => {
                return Err(e);
            },
        };
        let v: u64 = lo as u64 + hi as u64 * 0x1_0000_0000;
        proof {
            let c0 = old(self).cursor() as int;
            assert(old(self).bytes().skip(c0 + 4) =~= rem.skip(4));
            lemma_le_pair(rem, 4, 8);
            lemma_le_nat_bound(rem.take(4));
            lemma_le_nat_bound(rem.skip(4).take(4));
            lemma_le_nat_bound(rem.take(8));
            assert(pow256(0) == 1);
            assert(pow256(1) == 256);
            assert(pow256(2) == 0x10000);
            assert(pow256(3) == 0x100_0000);
            assert(pow256(4) == 0x1_0000_0000);
            assert(pow256(5) == 0x100_0000_0000);
            assert(pow256(6) == 0x1_0000_0000_0000);
            assert(pow256(7) == 0x100_0000_0000_0000);
            assert(pow256(8) == 0x1_0000_0000_0000_0000);
            assert(pow256(4) * le_nat(rem.skip(4).take(4)) == 0x1_0000_0000 * le_nat(
                rem.skip(4).take(4),
            )) by (nonlinear_arith)
                requires
                    pow256(4) == 0x1_0000_0000,
            ;
            assert(v as nat == le_nat(rem.take(8)));
            assert(v == le_nat(rem.take(8)) as u64);
        }
        Ok(v)
    }
}

/// Unfold `le_nat` on a two-byte sequence.
proof fn lemma_le_nat_2(b: Seq<u8>)
    requires
        b.len() == 2,
    ensures
        le_nat(b) == b[0] + 256 * (b[1] as nat),
{
    assert(b.skip(1).len() == 1);
    assert(b.skip(1)[0] == b[1]);
    assert(b.skip(1).skip(1).len() == 0);
    assert(le_nat(b.skip(1).skip(1)) == 0);
    assert(le_nat(b.skip(1)) == b[1] as nat + 256 * le_nat(b.skip(1).skip(1)));
}

/// A `w`-byte little-endian field is its low half plus `256^h` times its
/// high half, where `h` is half of `w`.
proof fn lemma_le_pair(b: Seq<u8>, h: int, w: int)
    requires
        0 <= h <= w <= b.len(),
    ensures
        le_nat(b.take(w)) == le_nat(b.take(h)) + pow256(h as nat) * le_nat(
            b.skip(h).take(w - h),
        ),
{
    lemma_le_nat_split(b.take(w), h);
    assert(b.take(w).take(h) =~= b.take(h));
    assert(b.take(w).skip(h) =~= b.skip(h).take(w - h));
}

} // verus!

//! The decoding capability: a contract for any type readable from a byte
//! stream, counted sequences, length-prefixed lists, rectangular grids, and
//! fixed-size skips.

use vstd::prelude::*;

use crate::reader::ByteReader;
use crate::reader::DecodeError;
use crate::reader::le_nat;
use crate::reader::lemma_le_nat_bound;
use crate::reader::pow256;

verus! {

/// A type whose values are produced by consuming a deterministic number of
/// bytes from the front of a stream. Composite types decode each field in
/// declaration order.
pub trait Readable: Sized {
    /// What decoding one `Self` from the front of `b` yields: the value and
    /// the number of bytes it occupies, or `None` when `b` is too short or
    /// malformed.
    spec fn spec_read(b: Seq<u8>) -> Option<(Self, nat)>;

    /// A successful decode never consumes more bytes than the sequence
    /// holds.
    proof fn lemma_spec_read_len(b: Seq<u8>)
        ensures
            Self::spec_read(b) matches Some(p) ==> p.1 <= b.len(),
    ;

    /// Decode one value, advancing the cursor past exactly the bytes the
    /// value occupies; on failure nothing is returned and the buffer is
    /// unchanged, though some bytes may have been consumed. Every decode
    /// failure is an I/O failure: a shortfall of bytes or a failed
    /// transport.
    fn read(r: &mut ByteReader) -> (res: Result<Self, DecodeError>)
        ensures
            old(r).wf(),
            final(r).wf(),
            final(r).bytes() == old(r).bytes(),
            final(r).cursor() >= old(r).cursor(),
            res matches Ok(v) ==> Self::spec_read(old(r).remaining()) == Some(
                (v, (final(r).cursor() - old(r).cursor()) as nat),
            ),
            res is Err ==> Self::spec_read(old(r).remaining()) is None && res == Err::<
                Self,
                DecodeError,
            >(DecodeError::IOFailure),
    ;
}

/// A length prefix: an unsigned little-endian count field of a configurable
/// width, read once immediately before the data it sizes.
pub trait Len {
    /// The count a prefix at the front of `b` holds, with the width in
    /// bytes of the prefix itself.
    spec fn spec_read_len(b: Seq<u8>) -> Option<(nat, nat)>;

    /// Read the count and advance the cursor past the prefix. A failure is
    /// an I/O failure: too few bytes for the prefix.
    fn read_len(r: &mut ByteReader) -> (res: Result<usize, DecodeError>)
        ensures
            old(r).wf(),
            final(r).wf(),
            final(r).bytes() == old(r).bytes(),
            final(r).cursor() >= old(r).cursor(),
            res matches Ok(n) ==> Self::spec_read_len(old(r).remaining()) == Some(
                (n as nat, (final(r).cursor() - old(r).cursor()) as nat),
            ),
            res is Err ==> Self::spec_read_len(old(r).remaining()) is None && res == Err::<
                usize,
                DecodeError,
            >(DecodeError::IOFailure),
    ;
}

impl Readable for u8 {
    open spec fn spec_read(b: Seq<u8>) -> Option<(u8, nat)> {
        if b.len() >= 1 {
            Some((b[0], 1))
        } else {
            None
        }
    }

    proof fn lemma_spec_read_len(b: Seq<u8>) {
    }

    fn read(r: &mut ByteReader) -> (res: Result<u8, DecodeError>) {
        r.read_byte()
    }
}

impl Readable for i8 {
    open spec fn spec_read(b: Seq<u8>) -> Option<(i8, nat)> {
        if b.len() >= 1 {
            Some((b[0] as i8, 1))
        } else {
            None
        }
    }

    proof fn lemma_spec_read_len(b: Seq<u8>) {
    }

    fn read(r: &mut ByteReader) -> (res: Result<i8, DecodeError>) {
        match r.read_byte() {
            Ok(v) => Ok(v as i8),
            Err(e) => Err(e),
        }
    }
}

impl Readable for u16 {
    open spec fn spec_read(b: Seq<u8>) -> Option<(u16, nat)> {
        if b.len() >= 2 {
            Some((le_nat(b.take(2)) as u16, 2))
        } else {
            None
        }
    }

    proof fn lemma_spec_read_len(b: Seq<u8>) {
    }

    fn read(r: &mut ByteReader) -> (res: Result<u16, DecodeError>) {
        r.read_u16_le()
    }
}

impl Readable for i16 {
    open spec fn spec_read(b: Seq<u8>) -> Option<(i16, nat)> {
        if b.len() >= 2 {
            Some(((le_nat(b.take(2)) as u16) as i16, 2))
        } else {
            None
        }
    }

    proof fn lemma_spec_read_len(b: Seq<u8>) {
    }

    fn read(r: &mut ByteReader) -> (res: Result<i16, DecodeError>) {
        match r.read_u16_le() {
            Ok(v) => Ok(v as i16),
            Err(e) => Err(e),
        }
    }
}

impl Readable for u32 {
    open spec fn spec_read(b: Seq<u8>) -> Option<(u32, nat)> {
        if b.len() >= 4 {
            Some((le_nat(b.take(4)) as u32, 4))
        } else {
            None
        }
    }

    proof fn lemma_spec_read_len(b: Seq<u8>) {
    }

    fn read(r: &mut ByteReader) -> (res: Result<u32, DecodeError>) {
        r.read_u32_le()
    }
}

impl Readable for i32 {
    open spec fn spec_read(b: Seq<u8>) -> Option<(i32, nat)> {
        if b.len() >= 4 {
            Some(((le_nat(b.take(4)) as u32) as i32, 4))
        } else {
            None
        }
    }

    proof fn lemma_spec_read_len(b: Seq<u8>) {
    }

    fn read(r: &mut ByteReader) -> (res: Result<i32, DecodeError>) {
        match r.read_u32_le() {
            Ok(v) => Ok(v as i32),
            Err(e) => Err(e),
        }
    }
}

impl Readable for u64 {
    open spec fn spec_read(b: Seq<u8>) -> Option<(u64, nat)> {
        if b.len() >= 8 {
            Some((le_nat(b.take(8)) as u64, 8))
        } else {
            None
        }
    }

    proof fn lemma_spec_read_len(b: Seq<u8>) {
    }

    fn read(r: &mut ByteReader) -> (res: Result<u64, DecodeError>) {
        r.read_u64_le()
    }
}

impl Readable for i64 {
    open spec fn spec_read(b: Seq<u8>) -> Option<(i64, nat)> {
        if b.len() >= 8 {
            Some(((le_nat(b.take(8)) as u64) as i64, 8))
        } else {
            None
        }
    }

    proof fn lemma_spec_read_len(b: Seq<u8>) {
    }

    fn read(r: &mut ByteReader) -> (res: Result<i64, DecodeError>) {
        match r.read_u64_le() {
            Ok(v) => Ok(v as i64),
            Err(e) => Err(e),
        }
    }
}

impl Len for u16 {
    open spec fn spec_read_len(b: Seq<u8>) -> Option<(nat, nat)> {
        if b.len() >= 2 {
            Some((le_nat(b.take(2)), 2))
        } else {
            None
        }
    }

    fn read_len(r: &mut ByteReader) -> (res: Result<usize, DecodeError>) {
        match r.read_u16_le() {
            Ok(v) => {
                proof {
                    lemma_le_nat_bound(old(r).remaining().take(2));
                    assert(pow256(0) == 1);
                    assert(pow256(1) == 256);
                    assert(pow256(2) == 0x10000);
                }
                Ok(v as usize)
            },
            Err(e) => Err(e),
        }
    }
}

impl Len for u32 {
    open spec fn spec_read_len(b: Seq<u8>) -> Option<(nat, nat)> {
        if b.len() >= 4 {
            Some((le_nat(b.take(4)), 4))
        } else {
            None
        }
    }

    fn read_len(r: &mut ByteReader) -> (res: Result<usize, DecodeError>) {
        match r.read_u32_le() {
            Ok(v) => {
                proof {
                    lemma_le_nat_bound(old(r).remaining().take(4));
                    assert(pow256(0) == 1);
                    assert(pow256(1) == 256);
                    assert(pow256(2) == 0x10000);
                    assert(pow256(3) == 0x100_0000);
                    assert(pow256(4) == 0x1_0000_0000);
                }
                Ok(v as usize)
            },
            Err(e) => Err(e),
        }
    }
}

/// What decoding exactly `k` values of `T` from the front of `b` yields:
/// the values in order and the total bytes they occupy.
pub open spec fn spec_read_seq<T: Readable>(b: Seq<u8>, k: nat) -> Option<(Seq<T>, nat)>
    decreases k,
{
    if k == 0 {
        Some((Seq::empty(), 0))
    } else {
        match T::spec_read(b) {
            Some(p) => match spec_read_seq::<T>(b.skip(p.1 as int), (k - 1) as nat) {
                Some(q) => Some((seq![p.0] + q.0, p.1 + q.1)),
                None => None,
            },
            None => None,
        }
    }
}

/// A decoded sequence holds exactly `k` values and occupies no more bytes
/// than the input holds.
pub proof fn lemma_read_seq_len<T: Readable>(b: Seq<u8>, k: nat)
    ensures
        spec_read_seq::<T>(b, k) matches Some(p) ==> p.0.len() == k && p.1 <= b.len(),
    decreases k,
{
    T::lemma_spec_read_len(b);
    if k > 0 && spec_read_seq::<T>(b, k) is Some {
        let h = T::spec_read(b).unwrap();
        lemma_read_seq_len::<T>(b.skip(h.1 as int), (k - 1) as nat);
    }
}

/// Decoding `k + 1` values is decoding `k` and then one more at the point
/// those `k` values end.
proof fn lemma_read_seq_step<T: Readable>(b: Seq<u8>, k: nat)
    ensures
        spec_read_seq::<T>(b, k) matches Some(p) ==> spec_read_seq::<T>(b, (k + 1) as nat) == (
        match T::spec_read(b.skip(p.1 as int)) {
            Some(q) => Some((p.0.push(q.0), (p.1 + q.1) as nat)),
            None => None::<(Seq<T>, nat)>,
        }),
    decreases k,
{
    if spec_read_seq::<T>(b, k) is Some {
        let p = spec_read_seq::<T>(b, k).unwrap();
        if k == 0 {
            assert(b.skip(0) =~= b);
            match T::spec_read(b) {
                Some(q) => {
                    assert(spec_read_seq::<T>(b.skip(q.1 as int), 0) == Some(
                        (Seq::<T>::empty(), 0nat),
                    ));
                    assert(seq![q.0] + Seq::<T>::empty() =~= p.0.push(q.0));
                },
                None => {},
            }
        } else {
            T::lemma_spec_read_len(b);
            let h = T::spec_read(b).unwrap();
            let t = spec_read_seq::<T>(b.skip(h.1 as int), (k - 1) as nat).unwrap();
            lemma_read_seq_len::<T>(b.skip(h.1 as int), (k - 1) as nat);
            lemma_read_seq_step::<T>(b.skip(h.1 as int), (k - 1) as nat);
            assert(b.skip(h.1 as int).skip(t.1 as int) =~= b.skip(p.1 as int));
            match T::spec_read(b.skip(p.1 as int)) {
                Some(q) => {
                    assert(seq![h.0] + t.0.push(q.0) =~= (seq![h.0] + t.0).push(q.0));
                },
                None => {},
            }
        }
    }
}

/// Once decoding fails at some count, it fails at every larger count.
proof fn lemma_read_seq_none_mono<T: Readable>(b: Seq<u8>, j: nat, k: nat)
    requires
        j <= k,
        spec_read_seq::<T>(b, j) is None,
    ensures
        spec_read_seq::<T>(b, k) is None,
    decreases k,
{
    if j < k && k > 0 {
        match T::spec_read(b) {
            Some(h) => {
                lemma_read_seq_none_mono::<T>(b.skip(h.1 as int), (j - 1) as nat, (k - 1) as nat);
            },
            None => {},
        }
    }
}

/// Decoding `k` bytes yields exactly the first `k` bytes of the input.
pub proof fn lemma_read_seq_u8(b: Seq<u8>, k: nat)
    ensures
        k <= b.len() ==> spec_read_seq::<u8>(b, k) == Some((b.take(k as int), k)),
        k > b.len() ==> spec_read_seq::<u8>(b, k) is None,
    decreases k,
{
    if k > 0 && b.len() >= 1 {
        lemma_read_seq_u8(b.skip(1), (k - 1) as nat);
        if k <= b.len() {
            assert(seq![b[0]] + b.skip(1).take(k - 1) =~= b.take(k as int));
        }
    }
}

/// Decode exactly `len` values of `T`, in order. The whole operation fails
/// if any element fails: no partial collection is returned.
#[verifier::loop_isolation(false)]
pub fn read_vec<T: Readable>(r: &mut ByteReader, len: usize) -> (res: Result<Vec<T>, DecodeError>)
    ensures
        old(r).wf(),
        final(r).wf(),
        final(r).bytes() == old(r).bytes(),
        final(r).cursor() >= old(r).cursor(),
        res matches Ok(v) ==> spec_read_seq::<T>(old(r).remaining(), len as nat) == Some(
            (v@, (final(r).cursor() - old(r).cursor()) as nat),
        ),
        res is Err ==> spec_read_seq::<T>(old(r).remaining(), len as nat) is None && res == Err::<
            Vec<T>,
            DecodeError,
        >(DecodeError::IOFailure),
{
    let ghost all = r.bytes();
    let ghost c0 = r.cursor();
    let ghost rem0 = r.remaining();
    // position() supplies the cursor bound the loop invariant starts from
    let _start = r.position();
    let mut vec: Vec<T> = Vec::new();
    let mut i: usize = 0;
    while i < len
        invariant
            i <= len,
            r.wf(),
            r.bytes() == all,
            c0 <= r.cursor(),
            c0 <= all.len(),
            rem0 == all.skip(c0 as int),
            spec_read_seq::<T>(rem0, i as nat) == Some((vec@, (r.cursor() - c0) as nat)),
        decreases len - i,
    {
        proof {
            assert(all.skip(r.cursor() as int) =~= rem0.skip((r.cursor() - c0) as int));
            lemma_read_seq_step::<T>(rem0, i as nat);
        }
        let ghost prev = vec@;
        match T::read(r) {
            Ok(v) => {
                vec.push(v);
                i = i + 1;
                proof {
                    assert(vec@ =~= prev.push(v));
                }
            },
            Err(e) => {
                proof {
                    lemma_read_seq_none_mono::<T>(rem0, (i + 1) as nat, len as nat);
                }
                return Err(e);
            },
        }
    }
    Ok(vec)
}

/// The array whose elements are exactly `s`, when `s` has the right length.
pub open spec fn seq_to_array<T, const N: usize>(s: Seq<T>) -> [T; N] {
    choose|a: [T; N]| a@ == s
}

/// Relies on std's `TryFrom<Vec<T>>` for arrays: a vector of exactly `N`
/// elements becomes the array of those elements, in order.
#[verifier::external_body]
fn vec_into_array<T, const N: usize>(v: Vec<T>) -> (r: [T; N])
    requires
        v@.len() == N,
    ensures
        r@ == v@,
{
    v.try_into().ok().unwrap()
}

impl<T: Readable, const N: usize> Readable for [T; N] {
    /// A fixed-size array decodes as exactly `N` elements in order; a
    /// zero-length array decodes trivially, consuming nothing. The guard
    /// lets any caller of a successful decode conclude that the array's
    /// elements are the decoded sequence.
    open spec fn spec_read(b: Seq<u8>) -> Option<([T; N], nat)> {
        match spec_read_seq::<T>(b, N as nat) {
            Some(p) => if exists|a: [T; N]| a@ == p.0 {
                Some((seq_to_array::<T, N>(p.0), p.1))
            } else {
                None
            },
            None => None,
        }
    }

    proof fn lemma_spec_read_len(b: Seq<u8>) {
        lemma_read_seq_len::<T>(b, N as nat);
    }

    fn read(r: &mut ByteReader) -> (res: Result<[T; N], DecodeError>) {
        let v = match read_vec::<T>(r, N) {
            Ok(v) => v,
            Err(e) => {
                return Err(e);
            },
        };
        proof {
            lemma_read_seq_len::<T>(old(r).remaining(), N as nat);
        }
        let ghost s = v@;
        let arr = vec_into_array::<T, N>(v);
        proof {
            broadcast use vstd::array::group_array_axioms;

            assert(exists|a: [T; N]| a@ == s) by {
                assert(arr@ == s);
            }
            let a = seq_to_array::<T, N>(s);
            assert(a@ == s);
            assert(a =~= arr);
        }
        Ok(arr)
    }
}

/// The array a successful fixed-size decode yields holds exactly the `N`
/// decoded values, in order, and occupies exactly their bytes.
pub proof fn lemma_array_read_elements<T: Readable, const N: usize>(b: Seq<u8>)
    ensures
        <[T; N] as Readable>::spec_read(b) matches Some(p) ==> (match spec_read_seq::<T>(
            b,
            N as nat,
        ) {
            Some(q) => p.0@ == q.0 && p.1 == q.1,
            None => false,
        }),
{
}

impl<T: Readable, const N: usize> Readable for Box<[T; N]> {
    /// A boxed fixed-size array decodes exactly as the array itself; only
    /// where the decoded value lives differs.
    open spec fn spec_read(b: Seq<u8>) -> Option<(Box<[T; N]>, nat)> {
        match <[T; N] as Readable>::spec_read(b) {
            Some(p) => Some((choose|bx: Box<[T; N]>| (#[trigger] bx@) == p.0@, p.1)),
            None => None,
        }
    }

    proof fn lemma_spec_read_len(b: Seq<u8>) {
        <[T; N] as Readable>::lemma_spec_read_len(b);
    }

    fn read(r: &mut ByteReader) -> (res: Result<Box<[T; N]>, DecodeError>) {
        match <[T; N] as Readable>::read(r) {
            Ok(arr) => {
                let ghost s = arr@;
                let bx = Box::new(arr);
                proof {
                    broadcast use vstd::array::group_array_axioms;

                    assert(exists|b2: Box<[T; N]>| (#[trigger] b2@) == s) by {
                        assert(bx@ == s);
                    }
                    let c = choose|b2: Box<[T; N]>| (#[trigger] b2@) == s;
                    assert(*c =~= *bx);
                    assert(c == bx);
                }
                Ok(bx)
            },
            Err(e) => Err(e),
        }
    }
}

/// What decoding a length-prefixed list yields: a count field of width `L`,
/// then exactly that many elements.
pub open spec fn spec_read_list<T: Readable, L: Len>(b: Seq<u8>) -> Option<(Seq<T>, nat)> {
    match L::spec_read_len(b) {
        Some(p) => match spec_read_seq::<T>(b.skip(p.1 as int), p.0) {
            Some(q) => Some((q.0, (p.1 + q.1) as nat)),
            None => None,
        },
        None => None,
    }
}

/// Read a count prefix of width `L`, then exactly that many elements of
/// `T`. A count of zero yields an empty collection with no element bytes
/// consumed.
pub fn read_list<T: Readable, L: Len>(r: &mut ByteReader) -> (res: Result<Vec<T>, DecodeError>)
    ensures
        old(r).wf(),
        final(r).wf(),
        final(r).bytes() == old(r).bytes(),
        final(r).cursor() >= old(r).cursor(),
        res matches Ok(v) ==> spec_read_list::<T, L>(old(r).remaining()) == Some(
            (v@, (final(r).cursor() - old(r).cursor()) as nat),
        ),
        res is Err ==> spec_read_list::<T, L>(old(r).remaining()) is None && res == Err::<
            Vec<T>,
            DecodeError,
        >(DecodeError::IOFailure),
{
    let ghost rem0 = r.remaining();
    let len = match L::read_len(r) {
        Ok(n) => n,
        Err(e) => {
            return Err(e);
        },
    };
    let ghost w = (r.cursor() - old(r).cursor()) as int;
    proof {
        assert(r.bytes().skip(r.cursor() as int) =~= rem0.skip(w));
    }
    match read_vec::<T>(r, len) {
        Ok(v) => Ok(v),
        Err(e) => Err(e),
    }
}

/// Failure atomicity for length-prefixed lists: when any element within the
/// declared count fails to decode at the point the elements before it end,
/// the whole list decode fails; no partial collection exists.
pub proof fn lemma_list_failure_atomic<T: Readable, L: Len>(b: Seq<u8>, j: nat)
    requires
        L::spec_read_len(b) matches Some(c) && j < c.0 && (spec_read_seq::<T>(
            b.skip(c.1 as int),
            j,
        ) matches Some(p) && T::spec_read(b.skip(c.1 as int).skip(p.1 as int)) is None),
    ensures
        spec_read_list::<T, L>(b) is None,
{
    let c = L::spec_read_len(b).unwrap();
    lemma_read_seq_step::<T>(b.skip(c.1 as int), j);
    lemma_read_seq_none_mono::<T>(b.skip(c.1 as int), (j + 1) as nat, c.0);
}

/// What decoding `rows` rows of `cols` values each yields, in row-major
/// order: the rows in order and the total bytes they occupy.
pub open spec fn spec_read_rows<T: Readable>(b: Seq<u8>, rows: nat, cols: nat) -> Option<
    (Seq<Seq<T>>, nat),
>
    decreases rows,
{
    if rows == 0 {
        Some((Seq::empty(), 0))
    } else {
        match spec_read_seq::<T>(b, cols) {
            Some(p) => match spec_read_rows::<T>(b.skip(p.1 as int), (rows - 1) as nat, cols) {
                Some(q) => Some((seq![p.0] + q.0, p.1 + q.1)),
                None => None,
            },
            None => None,
        }
    }
}

/// A decoded grid is rectangular: it holds exactly `rows` rows, each of
/// exactly `cols` values.
pub proof fn lemma_read_rows_shape<T: Readable>(b: Seq<u8>, rows: nat, cols: nat)
    ensures
        spec_read_rows::<T>(b, rows, cols) matches Some(p) ==> p.0.len() == rows && p.1 <= b.len()
            && (forall|i: int| 0 <= i < rows ==> #[trigger] p.0[i].len() == cols),
    decreases rows,
{
    if rows > 0 && spec_read_rows::<T>(b, rows, cols) is Some {
        let h = spec_read_seq::<T>(b, cols).unwrap();
        lemma_read_seq_len::<T>(b, cols);
        lemma_read_rows_shape::<T>(b.skip(h.1 as int), (rows - 1) as nat, cols);
    }
}

/// Decoding `rows + 1` rows is decoding `rows` and then one more row at the
/// point those rows end.
proof fn lemma_read_rows_step<T: Readable>(b: Seq<u8>, rows: nat, cols: nat)
    ensures
        spec_read_rows::<T>(b, rows, cols) matches Some(p) ==> spec_read_rows::<T>(
            b,
            (rows + 1) as nat,
            cols,
        ) == (match spec_read_seq::<T>(b.skip(p.1 as int), cols) {
            Some(q) => Some((p.0.push(q.0), (p.1 + q.1) as nat)),
            None => None::<(Seq<Seq<T>>, nat)>,
        }),
    decreases rows,
{
    if spec_read_rows::<T>(b, rows, cols) is Some {
        let p = spec_read_rows::<T>(b, rows, cols).unwrap();
        if rows == 0 {
            assert(b.skip(0) =~= b);
            match spec_read_seq::<T>(b, cols) {
                Some(q) => {
                    assert(spec_read_rows::<T>(b.skip(q.1 as int), 0, cols) == Some(
                        (Seq::<Seq<T>>::empty(), 0nat),
                    ));
                    assert(seq![q.0] + Seq::<Seq<T>>::empty() =~= p.0.push(q.0));
                },
                None => {},
            }
        } else {
            lemma_read_seq_len::<T>(b, cols);
            let h = spec_read_seq::<T>(b, cols).unwrap();
            let t = spec_read_rows::<T>(b.skip(h.1 as int), (rows - 1) as nat, cols).unwrap();
            lemma_read_rows_shape::<T>(b.skip(h.1 as int), (rows - 1) as nat, cols);
            lemma_read_rows_step::<T>(b.skip(h.1 as int), (rows - 1) as nat, cols);
            assert(b.skip(h.1 as int).skip(t.1 as int) =~= b.skip(p.1 as int));
            match spec_read_seq::<T>(b.skip(p.1 as int), cols) {
                Some(q) => {
                    assert(seq![h.0] + t.0.push(q.0) =~= (seq![h.0] + t.0).push(q.0));
                },
                None => {},
            }
        }
    }
}

/// Once row decoding fails at some row count, it fails at every larger one.
proof fn lemma_read_rows_none_mono<T: Readable>(b: Seq<u8>, cols: nat, j: nat, k: nat)
    requires
        j <= k,
        spec_read_rows::<T>(b, j, cols) is None,
    ensures
        spec_read_rows::<T>(b, k, cols) is None,
    decreases k,
{
    if j < k && k > 0 {
        match spec_read_seq::<T>(b, cols) {
            Some(h) => {
                lemma_read_rows_none_mono::<T>(
                    b.skip(h.1 as int),
                    cols,
                    (j - 1) as nat,
                    (k - 1) as nat,
                );
            },
            None => {},
        }
    }
}

/// Decoding `m + n` values splits: the first `m` values, then `n` more
/// where those end.
proof fn lemma_read_seq_concat<T: Readable>(b: Seq<u8>, m: nat, n: nat)
    ensures
        (match spec_read_seq::<T>(b, m) {
            Some(p) => match spec_read_seq::<T>(b.skip(p.1 as int), n) {
                Some(q) => spec_read_seq::<T>(b, (m + n) as nat) == Some(
                    (p.0 + q.0, (p.1 + q.1) as nat),
                ),
                None => spec_read_seq::<T>(b, (m + n) as nat) is None,
            },
            None => true,
        }),
    decreases m,
{
    if spec_read_seq::<T>(b, m) is Some {
        let p = spec_read_seq::<T>(b, m).unwrap();
        if m == 0 {
            assert(b.skip(0) =~= b);
            match spec_read_seq::<T>(b, n) {
                Some(q) => {
                    assert(p.0 + q.0 =~= q.0);
                },
                None => {},
            }
        } else {
            T::lemma_spec_read_len(b);
            let h = T::spec_read(b).unwrap();
            let t = spec_read_seq::<T>(b.skip(h.1 as int), (m - 1) as nat).unwrap();
            lemma_read_seq_len::<T>(b.skip(h.1 as int), (m - 1) as nat);
            lemma_read_seq_concat::<T>(b.skip(h.1 as int), (m - 1) as nat, n);
            assert(b.skip(h.1 as int).skip(t.1 as int) =~= b.skip(p.1 as int));
            match spec_read_seq::<T>(b.skip(p.1 as int), n) {
                Some(q) => {
                    assert(seq![h.0] + (t.0 + q.0) =~= (seq![h.0] + t.0) + q.0);
                },
                None => {},
            }
        }
    }
}

/// Row-major order: a decoded grid's rows, concatenated in order, are
/// exactly the `rows * cols` values decoded flat from the same bytes, and
/// they occupy the same bytes.
pub proof fn lemma_rows_row_major<T: Readable>(b: Seq<u8>, rows: nat, cols: nat)
    ensures
        spec_read_rows::<T>(b, rows, cols) matches Some(p) ==> spec_read_seq::<T>(
            b,
            (rows * cols) as nat,
        ) == Some((p.0.flatten(), p.1)),
    decreases rows,
{
    if spec_read_rows::<T>(b, rows, cols) is Some {
        let p = spec_read_rows::<T>(b, rows, cols).unwrap();
        if rows == 0 {
            assert(p.0 =~= Seq::<Seq<T>>::empty());
            assert(p.0.flatten() =~= Seq::<T>::empty());
        } else {
            let h = spec_read_seq::<T>(b, cols).unwrap();
            let t = spec_read_rows::<T>(b.skip(h.1 as int), (rows - 1) as nat, cols).unwrap();
            lemma_rows_row_major::<T>(b.skip(h.1 as int), (rows - 1) as nat, cols);
            lemma_read_seq_concat::<T>(b, cols, ((rows - 1) * cols) as nat);
            assert(rows * cols == cols + (rows - 1) * cols) by (nonlinear_arith)
                requires
                    rows >= 1,
            ;
            assert((seq![h.0] + t.0).drop_first() =~= t.0);
            assert((seq![h.0] + t.0).first() == h.0);
            assert(p.0.flatten() == h.0 + t.0.flatten());
        }
    }
}

/// What decoding a two-dimensional grid yields: two 16-bit counts, the
/// outer first, then that many rows of that many values in row-major order.
pub open spec fn spec_read_grid<T: Readable>(b: Seq<u8>) -> Option<(Seq<Seq<T>>, nat)> {
    match <u16 as Len>::spec_read_len(b) {
        Some(p1) => match <u16 as Len>::spec_read_len(b.skip(p1.1 as int)) {
            Some(p2) => match spec_read_rows::<T>(
                b.skip((p1.1 + p2.1) as int),
                p1.0,
                p2.0,
            ) {
                Some(q) => Some((q.0, (p1.1 + p2.1 + q.1) as nat)),
                None => None,
            },
            None => None,
        },
        None => None,
    }
}

/// Read two 16-bit counts, the outer first, then decode that many rows of
/// that many elements in row-major order. Every row has the same length:
/// there are no jagged rows.
#[verifier::loop_isolation(false)]
pub fn read_list_2d<T: Readable>(r: &mut ByteReader) -> (res: Result<Vec<Vec<T>>, DecodeError>)
    ensures
        old(r).wf(),
        final(r).wf(),
        final(r).bytes() == old(r).bytes(),
        final(r).cursor() >= old(r).cursor(),
        res matches Ok(v) ==> spec_read_grid::<T>(old(r).remaining()) == Some(
            (v@.map_values(|row: Vec<T>| row@), (final(r).cursor() - old(r).cursor()) as nat),
        ),
        res is Err ==> spec_read_grid::<T>(old(r).remaining()) is None && res == Err::<
            Vec<Vec<T>>,
            DecodeError,
        >(DecodeError::IOFailure),
{
    let ghost all = r.bytes();
    let ghost c0 = r.cursor();
    let ghost rem0 = r.remaining();
    let len1 = match <u16 as Len>::read_len(r) {
        Ok(n) => n,
        Err(e) => {
            return Err(e);
        },
    };
    let ghost w1 = (r.cursor() - c0) as int;
    proof {
        assert(all.skip(r.cursor() as int) =~= rem0.skip(w1));
    }
    let len2 = match <u16 as Len>::read_len(r) {
        Ok(n) => n,
        Err(e) => {
            return Err(e);
        },
    };
    let ghost w2 = (r.cursor() - c0) as int;
    let ghost rem1 = rem0.skip(w2);
    proof {
        assert(all.skip(r.cursor() as int) =~= rem0.skip(w1).skip(w2 - w1));
        assert(rem0.skip(w1).skip(w2 - w1) =~= rem1);
    }
    let ghost c1 = r.cursor();
    let mut vec: Vec<Vec<T>> = Vec::new();
    let mut i: usize = 0;
    while i < len1
        invariant
            i <= len1,
            r.wf(),
            r.bytes() == all,
            c1 <= r.cursor(),
            c1 <= all.len(),
            rem1 == all.skip(c1 as int),
            spec_read_rows::<T>(rem1, i as nat, len2 as nat) == Some(
                (vec@.map_values(|row: Vec<T>| row@), (r.cursor() - c1) as nat),
            ),
        decreases len1 - i,
    {
        proof {
            assert(all.skip(r.cursor() as int) =~= rem1.skip((r.cursor() - c1) as int));
            lemma_read_rows_step::<T>(rem1, i as nat, len2 as nat);
        }
        let ghost prev = vec@.map_values(|row: Vec<T>| row@);
        match read_vec::<T>(r, len2) {
            Ok(row) => {
                let ghost rowv = row@;
                vec.push(row);
                i = i + 1;
                proof {
                    assert(vec@.map_values(|row: Vec<T>| row@) =~= prev.push(rowv));
                }
            },
            Err(e) => {
                proof {
                    lemma_read_rows_none_mono::<T>(rem1, len2 as nat, (i + 1) as nat, len1 as nat);
                }
                return Err(e);
            },
        }
    }
    Ok(vec)
}

/// Read and discard exactly `N` bytes, one at a time: the underlying stream
/// may not support seeking. Fails once the stream runs out, having consumed
/// everything that was left.
#[verifier::loop_isolation(false)]
pub fn skip<const N: usize>(r: &mut ByteReader) -> (res: Result<(), DecodeError>)
    ensures
        old(r).wf(),
        final(r).wf(),
        final(r).bytes() == old(r).bytes(),
        old(r).remaining().len() >= N ==> res == Ok::<(), DecodeError>(()) && final(r).cursor()
            == old(r).cursor() + N,
        old(r).remaining().len() < N ==> res == Err::<(), DecodeError>(DecodeError::IOFailure)
            && final(r).cursor() == final(r).bytes().len(),
{
    // position() supplies the cursor bound the loop invariant starts from
    let _start = r.position();
    let mut i: usize = 0;
    while i < N
        invariant
            i <= N,
            r.wf(),
            r.bytes() == old(r).bytes(),
            r.cursor() == old(r).cursor() + i,
        decreases N - i,
    {
        match r.read_byte() {
            Ok(_) => {
                i = i + 1;
            },
            Err(e) => {
                return Err(e);
            },
        }
    }
    Ok(())
}

} // verus!

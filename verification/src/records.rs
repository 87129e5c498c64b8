//! The packed record stream: a byte-length-prefixed region holding a run of
//! variable-size records, each padded to a 4-byte boundary, whose count is
//! discovered by exhausting the region's byte budget exactly.

use vstd::prelude::*;

use crate::decode::Len;
use crate::decode::Readable;
use crate::decode::lemma_read_seq_u8;
use crate::decode::read_vec;
use crate::reader::ByteReader;
use crate::reader::DecodeError;
use crate::reader::lemma_le_nat_bound;
use crate::reader::pow256;

verus! {

/// What decoding records out of `region` from offset `pos` onward yields.
/// Each record is decoded where the previous one ended, then the cursor
/// moves 2 further bytes when the record's size is not a multiple of 4.
/// The run succeeds only when a record ends, after any correction, exactly
/// at the region's end; a record or a correction that would pass the end
/// fails the whole run.
pub open spec fn spec_parse_records<T: Readable>(region: Seq<u8>, pos: nat) -> Option<Seq<T>>
    decreases region.len() - pos,
{
    if pos == region.len() {
        Some(Seq::empty())
    } else if pos > region.len() {
        None
    } else {
        match T::spec_read(region.skip(pos as int)) {
            Some(p) => {
                if p.1 < 1 || pos + p.1 > region.len() {
                    None
                } else {
                    let next = if p.1 % 4 != 0 {
                        pos + p.1 + 2
                    } else {
                        pos + p.1
                    };
                    if next > region.len() {
                        None
                    } else {
                        match spec_parse_records::<T>(region, next as nat) {
                            Some(rest) => Some(seq![p.0] + rest),
                            None => None,
                        }
                    }
                }
            },
            None => None,
        }
    }
}

/// What decoding a whole packed record stream yields: a 32-bit half-length
/// field (the region holds twice the stored number of bytes), then the
/// region's records, plus the total bytes consumed.
pub open spec fn spec_read_meshes<T: Readable>(b: Seq<u8>) -> Option<(Seq<T>, nat)> {
    match <u32 as Len>::spec_read_len(b) {
        Some(p) => {
            let nb = 2 * p.0;
            if b.len() < p.1 + nb {
                None
            } else {
                match spec_parse_records::<T>(b.skip(p.1 as int).take(nb as int), 0) {
                    Some(s) => Some((s, (p.1 + nb) as nat)),
                    None => None,
                }
            }
        },
        None => None,
    }
}

/// Read a 32-bit half-length, buffer exactly twice that many bytes, and
/// decode records from the buffered region until its byte budget is
/// exhausted exactly. After a record whose size is not a multiple of 4 the
/// cursor advances 2 further bytes to restore 4-byte alignment. A record
/// that fails, or a region that no run of padded records fills exactly,
/// fails the whole operation; no partial collection is returned.
#[verifier::loop_isolation(false)]
pub fn read_meshes<T: Readable>(r: &mut ByteReader) -> (res: Result<Vec<T>, DecodeError>)
    ensures
        old(r).wf(),
        final(r).wf(),
        final(r).bytes() == old(r).bytes(),
        final(r).cursor() >= old(r).cursor(),
        res matches Ok(v) ==> spec_read_meshes::<T>(old(r).remaining()) == Some(
            (v@, (final(r).cursor() - old(r).cursor()) as nat),
        ),
        res is Err ==> spec_read_meshes::<T>(old(r).remaining()) is None && res == Err::<
            Vec<T>,
            DecodeError,
        >(DecodeError::IOFailure),
{
    let ghost all = r.bytes();
    let ghost c0 = r.cursor();
    let ghost rem0 = r.remaining();
    let half = match <u32 as Len>::read_len(r) {
        Ok(n) => n,
        Err(e) => {
            return Err(e);
        },
    };
    proof {
        lemma_le_nat_bound(rem0.take(4));
        assert(pow256(0) == 1);
        assert(pow256(1) == 256);
        assert(pow256(2) == 0x10000);
        assert(pow256(3) == 0x100_0000);
        assert(pow256(4) == 0x1_0000_0000);
        assert(all.skip(r.cursor() as int) =~= rem0.skip(4));
    }
    let num_bytes: u64 = (half as u64) * 2;
    let avail = r.remaining_len();
    if (avail as u64) < num_bytes {
        return Err(DecodeError::IOFailure);
    }
    proof {
        lemma_read_seq_u8(rem0.skip(4), num_bytes as nat);
    }
    let region = match read_vec::<u8>(r, num_bytes as usize) {
        Ok(v) => v,
        Err(e) => {
            return Err(e);
        },
    };
    let ghost regionv = region@;
    let region_len = region.len();
    let mut inner = ByteReader::new(region);
    let mut vec: Vec<T> = Vec::new();
    let mut pos1 = inner.position();
    while pos1 < region_len
        invariant
            inner.wf(),
            inner.bytes() == regionv,
            pos1 == inner.cursor(),
            spec_parse_records::<T>(regionv, 0) == (match spec_parse_records::<T>(
                regionv,
                inner.cursor(),
            ) {
                Some(rest) => Some(vec@ + rest),
                None => None::<Seq<T>>,
            }),
        decreases regionv.len() - inner.cursor(),
    {
        let ghost prev = vec@;
        let ghost p0 = pos1 as nat;
        let v = match T::read(&mut inner) {
            Ok(v) => v,
            Err(e) => {
                return Err(e);
            },
        };
        vec.push(v);
        let pos2 = inner.position();
        let consumed = pos2 - pos1;
        proof {
            T::lemma_spec_read_len(regionv.skip(pos1 as int));
        }
        if consumed == 0 {
            // a record that occupies no bytes can never exhaust the region
            proof {
                assert(spec_parse_records::<T>(regionv, p0) is None);
            }
            return Err(DecodeError::IOFailure);
        }
        if consumed % 4 != 0 {
            if pos2 as u64 + 2 <= region_len as u64 {
                inner.set_position(pos2 + 2);
                pos1 = pos2 + 2;
                proof {
                    lemma_parse_records_cons::<T>(regionv, p0, prev, v, consumed as nat);
                }
            } else {
                // The alignment correction lands past the region's end: the
                // next record would start beyond the data, so the run fails.
                inner.set_position(region_len);
                match T::read(&mut inner) {
                    Ok(_) => {
                        return Err(DecodeError::IOFailure);
                    },
                    Err(e) => {
                        return Err(e);
                    },
                }
            }
        } else {
            pos1 = pos2;
            proof {
                lemma_parse_records_cons::<T>(regionv, p0, prev, v, consumed as nat);
            }
        }
    }
    proof {
        assert(vec@ + Seq::<T>::empty() =~= vec@);
    }
    Ok(vec)
}

/// Consing one decoded record onto the run: if a record of size `n` sits at
/// `pos` and the cursor lands in bounds after any alignment correction, the
/// records from `pos` are that record followed by the records from the
/// corrected position.
proof fn lemma_parse_records_cons<T: Readable>(
    region: Seq<u8>,
    pos: nat,
    prev: Seq<T>,
    v: T,
    n: nat,
)
    requires
        pos < region.len(),
        T::spec_read(region.skip(pos as int)) == Some((v, n)),
        1 <= n,
        pos + n <= region.len(),
        (if n % 4 != 0 {
            pos + n + 2
        } else {
            pos + n
        }) <= region.len(),
        spec_parse_records::<T>(region, 0) == (match spec_parse_records::<T>(region, pos) {
            Some(rest) => Some(prev + rest),
            None => None::<Seq<T>>,
        }),
    ensures
        spec_parse_records::<T>(region, 0) == (match spec_parse_records::<T>(
            region,
            (if n % 4 != 0 {
                pos + n + 2
            } else {
                pos + n
            }) as nat,
        ) {
            Some(rest) => Some(prev.push(v) + rest),
            None => None::<Seq<T>>,
        }),
{
    let next = (if n % 4 != 0 {
        pos + n + 2
    } else {
        pos + n
    }) as nat;
    match spec_parse_records::<T>(region, next) {
        Some(rest) => {
            assert(spec_parse_records::<T>(region, pos) == Some(seq![v] + rest));
            assert(prev + (seq![v] + rest) =~= prev.push(v) + rest);
        },
        None => {
            assert(spec_parse_records::<T>(region, pos) is None);
        },
    }
}

} // verus!

//! The compressed-section frame: an uncompressed-length field (informational
//! only), a compressed-length field, and that many bytes of a zlib stream,
//! buffered whole and handed to a lazy streaming decompressor.
//!
//! Only the framing and the decoder's construction live here. Reading the
//! returned decoder runs the outside inflate code, which can panic on
//! malformed data; verified code must not panic, so decompressing, and
//! containing such failures, is the caller's.

use vstd::prelude::*;

use crate::decode::Len;
use crate::decode::lemma_read_seq_u8;
use crate::decode::read_vec;
use crate::reader::ByteReader;
use crate::reader::DecodeError;

verus! {

#[verifier::external_type_specification]
#[verifier::external_body]
#[verifier::reject_recursive_types(R)]
pub struct ExZlibDecoder<R>(compress::zlib::Decoder<R>);

#[verifier::external_type_specification]
#[verifier::external_body]
#[verifier::reject_recursive_types(T)]
pub struct ExCursor<T>(std::io::Cursor<T>);

/// The bytes a zlib decompression stream was built over and has not begun
/// to consume.
pub uninterp spec fn decoder_input(d: compress::zlib::Decoder<std::io::Cursor<Vec<u8>>>) -> Seq<
    u8,
>;

/// Relies on compress::zlib::Decoder::new and std::io::Cursor::new: wraps
/// the buffered bytes, still unread, as a lazy zlib decompression stream.
#[verifier::external_body]
fn make_zlib_decoder(bytes: Vec<u8>) -> (d: compress::zlib::Decoder<std::io::Cursor<Vec<u8>>>)
    ensures
        decoder_input(d) == bytes@,
{
    compress::zlib::Decoder::new(std::io::Cursor::new(bytes))
}

/// What the compressed-section frame at the front of `b` holds: after a
/// 32-bit uncompressed-length field (read but never validated) and a 32-bit
/// compressed-length field come exactly that many payload bytes. Yields the
/// payload and the bytes the whole frame occupies.
pub open spec fn spec_zlib_frame(b: Seq<u8>) -> Option<(Seq<u8>, nat)> {
    match <u32 as Len>::spec_read_len(b) {
        Some(p1) => match <u32 as Len>::spec_read_len(b.skip(p1.1 as int)) {
            Some(p2) => if b.len() < p1.1 + p2.1 + p2.0 {
                None
            } else {
                Some(
                    (
                        b.skip((p1.1 + p2.1) as int).take(p2.0 as int),
                        (p1.1 + p2.1 + p2.0) as nat,
                    ),
                )
            },
            None => None,
        },
        None => None,
    }
}

/// Read a compressed-section frame and wrap its buffered payload as a lazy
/// zlib decompression stream; nothing is decompressed yet. Fails only when
/// the header or the payload cannot be read in full.
pub fn get_zlib(
    r: &mut ByteReader,
) -> (res: Result<compress::zlib::Decoder<std::io::Cursor<Vec<u8>>>, DecodeError>)
    ensures
        old(r).wf(),
        final(r).wf(),
        final(r).bytes() == old(r).bytes(),
        final(r).cursor() >= old(r).cursor(),
        (match res {
            Ok(d) => spec_zlib_frame(old(r).remaining()) matches Some(f) && decoder_input(d)
                == f.0 && final(r).cursor() == old(r).cursor() + f.1,
            Err(e) => spec_zlib_frame(old(r).remaining()) is None && e == DecodeError::IOFailure,
        }),
{
    let ghost rem0 = r.remaining();
    let _uncompressed_len = match <u32 as Len>::read_len(r) {
        Ok(n) => n,
        Err(_) => {
            return Err(DecodeError::IOFailure);
        },
    };
    proof {
        assert(r.bytes().skip(r.cursor() as int) =~= rem0.skip(4));
    }
    let compressed_len = match <u32 as Len>::read_len(r) {
        Ok(n) => n,
        Err(_) => {
            return Err(DecodeError::IOFailure);
        },
    };
    proof {
        assert(r.bytes().skip(r.cursor() as int) =~= rem0.skip(8));
        lemma_read_seq_u8(rem0.skip(8), compressed_len as nat);
    }
    let bytes = match read_vec::<u8>(r, compressed_len) {
        Ok(v) => v,
        Err(_) => {
            return Err(DecodeError::IOFailure);
        },
    };
    Ok(make_zlib_decoder(bytes))
}

} // verus!

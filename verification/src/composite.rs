//! An example composite record. A composite decodes by reading each of its
//! fields in declaration order; a schema generator would emit exactly the
//! sequence of calls written out here by hand.

use vstd::prelude::*;

use crate::decode::Readable;
use crate::reader::ByteReader;
use crate::reader::DecodeError;

verus! {

/// A 6-byte model-file vertex: three 16-bit signed coordinates, decoded in
/// declaration order.
#[derive(Clone, Copy, Debug, PartialEq, Eq, Structural)]
pub struct Vertex {
    pub x: i16,
    pub y: i16,
    pub z: i16,
}

impl Readable for Vertex {
    open spec fn spec_read(b: Seq<u8>) -> Option<(Vertex, nat)> {
        match <i16 as Readable>::spec_read(b) {
            Some(x) => match <i16 as Readable>::spec_read(b.skip(x.1 as int)) {
                Some(y) => match <i16 as Readable>::spec_read(b.skip((x.1 + y.1) as int)) {
                    Some(z) => Some(
                        (Vertex { x: x.0, y: y.0, z: z.0 }, (x.1 + y.1 + z.1) as nat),
                    ),
                    None => None,
                },
                None => None,
            },
            None => None,
        }
    }

    proof fn lemma_spec_read_len(b: Seq<u8>) {
    }

    fn read(r: &mut ByteReader) -> (res: Result<Vertex, DecodeError>) {
        let ghost rem0 = r.remaining();
        let x = match <i16 as Readable>::read(r) {
            Ok(v) => v,
            Err(e) => {
                return Err(e);
            },
        };
        proof {
            assert(r.bytes().skip(r.cursor() as int) =~= rem0.skip(2));
        }
        let y = match <i16 as Readable>::read(r) {
            Ok(v) => v,
            Err(e) => {
                return Err(e);
            },
        };
        proof {
            assert(r.bytes().skip(r.cursor() as int) =~= rem0.skip(4));
        }
        let z = match <i16 as Readable>::read(r) {
            Ok(v) => v,
            Err(e) => {
                return Err(e);
            },
        };
        Ok(Vertex { x, y, z })
    }
}

} // verus!

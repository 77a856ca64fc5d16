//! An opaque 32-byte digest carried through contract contexts. It travels as
//! raw bytes, fixed width, with no length prefix.

use vstd::prelude::*;

use crate::DecodeError;
use crate::serialization::Cursor;
use crate::serialization::ReadWrite;
use crate::serialization::write_all_bytes;

verus! {

/// The number of bytes in a [`Hash`].
pub const HASH_WIDTH: usize = 32;

/// An opaque hash value with no internal structure.
#[derive(Debug)]
pub struct Hash {
    pub bytes: Vec<u8>,
}

/// A well-formed hash: exactly the required number of bytes.
pub open spec fn hash_wf(h: Hash) -> bool {
    h.bytes@.len() == HASH_WIDTH
}

/// The wire image of a hash: its raw bytes, fixed width, no prefix.
pub open spec fn spec_enc_hash(m: Seq<u8>) -> Seq<u8> {
    m
}

/// What decoding a hash reads off the front of a stream.
pub open spec fn spec_dec_hash(s: Seq<u8>) -> Result<(Seq<u8>, int), DecodeError> {
    if s.len() >= HASH_WIDTH {
        Ok((s.take(HASH_WIDTH as int), HASH_WIDTH as int))
    } else {
        Err(DecodeError::Truncated)
    }
}

impl DeepView for Hash {
    type V = Seq<u8>;

    open spec fn deep_view(&self) -> Seq<u8> {
        self.bytes@
    }
}

impl ReadWrite for Hash {
    open spec fn wf(&self) -> bool {
        hash_wf(*self)
    }

    open spec fn spec_enc(m: Seq<u8>) -> Seq<u8> {
        spec_enc_hash(m)
    }

    open spec fn spec_dec(s: Seq<u8>) -> Result<(Seq<u8>, int), DecodeError> {
        spec_dec_hash(s)
    }

    proof fn lemma_dec_bounds(s: Seq<u8>) {
    }

    proof fn lemma_round_trip(v: &Hash, tail: Seq<u8>) {
        assert((v.bytes@ + tail).take(HASH_WIDTH as int) =~= v.bytes@);
    }

    fn read_from(reader: &mut Cursor) -> (r: Result<Hash, DecodeError>) {
        if reader.remaining_len() < HASH_WIDTH {
            return Err(DecodeError::Truncated);
        }
        let bytes = reader.read_bytes(HASH_WIDTH);
        proof {
            assert(bytes@ =~= old(reader).remaining().take(HASH_WIDTH as int));
        }
        Ok(Hash { bytes })
    }

    fn write_to(&self, writer: &mut Vec<u8>) {
        write_all_bytes(writer, &self.bytes);
    }
}

impl PartialEq for Hash {
    fn eq(&self, other: &Hash) -> (r: bool) {
        let r = self.bytes == other.bytes;
        proof {
            vstd::std_specs::vec::axiom_spec_len(&self.bytes);
            vstd::std_specs::vec::axiom_spec_len(&other.bytes);
            if r {
                assert(self.bytes@ =~= other.bytes@);
            } else {
                if self.bytes@ == other.bytes@ {
                    assert(vstd::std_specs::cmp::PartialEqSpec::eq_spec(
                        &self.bytes,
                        &other.bytes,
                    ));
                    assert(false);
                }
            }
        }
        r
    }
}

impl Eq for Hash {

}

impl vstd::std_specs::cmp::PartialEqSpecImpl for Hash {
    open spec fn obeys_eq_spec() -> bool {
        true
    }

    open spec fn eq_spec(&self, other: &Hash) -> bool {
        self.bytes@ == other.bytes@
    }
}

impl Hash {
    /// A copy holding the same bytes.
    pub fn duplicate(&self) -> (r: Hash)
        ensures
            r.deep_view() == self.deep_view(),
    {
        let mut bytes: Vec<u8> = Vec::new();
        let mut i: usize = 0;
        while i < self.bytes.len()
            invariant
                i <= self.bytes@.len(),
                bytes@ == self.bytes@.take(i as int),
            decreases self.bytes@.len() - i,
        {
            bytes.push(self.bytes[i]);
            i = i + 1;
            proof {
                assert(self.bytes@.take(i - 1).push(self.bytes@[i - 1]) =~= self.bytes@.take(
                    i as int,
                ));
            }
        }
        proof {
            assert(self.bytes@.take(self.bytes@.len() as int) =~= self.bytes@);
        }
        Hash { bytes }
    }
}

} // verus!

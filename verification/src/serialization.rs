//! The binary codec: a cursor over an input buffer, integer read/write
//! primitives, and the `ReadWrite` trait that every wire type implements.
//!
//! Every `read_*` operation either succeeds and advances the cursor by
//! exactly the bytes it consumed, or reports a fatal [`DecodeError`]; there
//! is no partial value. `write_*` operations are total over well-formed
//! in-memory values and only ever append to the output buffer.

use vstd::prelude::*;

use crate::DecodeError;
use crate::intbytes::lemma_i32_be_round_trip;
use crate::intbytes::lemma_u32_be_round_trip;
use crate::intbytes::lemma_u64_be_round_trip;
use crate::intbytes::lemma_u32_byte_parts_bounded;
use crate::intbytes::lemma_u64_byte_parts_bounded;
use crate::intbytes::i32_from_bits;
use crate::intbytes::i32_to_bits;
use crate::intbytes::i64_from_bits;
use crate::intbytes::i64_to_bits;
use crate::intbytes::spec_i32_from_be_bytes;
use crate::intbytes::spec_i32_from_le_bytes;
use crate::intbytes::spec_i32_to_be_bytes;
use crate::intbytes::spec_i32_to_le_bytes;
use crate::intbytes::spec_i64_from_be_bytes;
use crate::intbytes::spec_i64_to_be_bytes;
use crate::intbytes::spec_u32_from_be_bytes;
use crate::intbytes::spec_u32_from_le_bytes;
use crate::intbytes::spec_u32_to_be_bytes;
use crate::intbytes::spec_u32_to_le_bytes;
use crate::intbytes::spec_u64_from_be_bytes;
use crate::intbytes::spec_u64_to_be_bytes;

verus! {

/// A sequential read position over an in-memory byte buffer. Stands in for
/// the growable reader the host hands its payloads through.
pub struct Cursor {
    /// The underlying buffer.
    pub data: Vec<u8>,
    /// The read position.
    pub pos: usize,
}

impl Cursor {
    /// The whole underlying buffer; reading never changes it.
    pub open spec fn stream(&self) -> Seq<u8> {
        self.data@
    }

    /// How many bytes have been consumed so far.
    pub open spec fn offset(&self) -> int {
        self.pos as int
    }

    pub open spec fn wf(&self) -> bool {
        0 <= self.offset() <= self.stream().len()
    }

    /// The bytes not yet consumed.
    pub open spec fn remaining(&self) -> Seq<u8> {
        self.stream().skip(self.offset())
    }

    pub fn new(data: Vec<u8>) -> (r: Cursor)
        ensures
            r.wf(),
            r.stream() == data@,
            r.offset() == 0,
    {
        Cursor { data, pos: 0 }
    }

    pub fn remaining_len(&self) -> (r: usize)
        requires
            self.wf(),
        ensures
            r == self.stream().len() - self.offset(),
    {
        self.data.len() - self.pos
    }

    /// Consume exactly `n` raw bytes.
    pub fn read_bytes(&mut self, n: usize) -> (r: Vec<u8>)
        requires
            old(self).wf(),
            old(self).offset() + n <= old(self).stream().len(),
        ensures
            final(self).wf(),
            final(self).stream() == old(self).stream(),
            final(self).offset() == old(self).offset() + n,
            r@ == old(self).stream().subrange(old(self).offset(), old(self).offset() + n),
    {
        proof {
            vstd::std_specs::vec::axiom_spec_len(&self.data);
        }
        let mut r: Vec<u8> = Vec::new();
        let mut i: usize = 0;
        while i < n
            invariant
                self == old(self),
                self.wf(),
                i <= n,
                self.offset() + n <= self.stream().len(),
                r@ == self.stream().subrange(self.offset(), self.offset() + i),
            decreases n - i,
        {
            proof {
                vstd::std_specs::vec::axiom_spec_len(&self.data);
            }
            r.push(self.data[self.pos + i]);
            i = i + 1;
            proof {
                assert(r@ =~= self.stream().subrange(self.offset(), self.offset() + i));
            }
        }
        self.pos = self.pos + n;
        r
    }
}

/// Reading fixed-width integers off a byte stream.
pub trait ReadInt {
    spec fn stream(&self) -> Seq<u8>;

    spec fn offset(&self) -> int;

    fn read_byte(&mut self) -> (r: u8)
        requires
            0 <= old(self).offset(),
            old(self).offset() + 1 <= old(self).stream().len(),
        ensures
            final(self).stream() == old(self).stream(),
            final(self).offset() == old(self).offset() + 1,
            r == old(self).stream()[old(self).offset()],
    ;

    fn read_u64_be(&mut self) -> (r: u64)
        requires
            0 <= old(self).offset(),
            old(self).offset() + 8 <= old(self).stream().len(),
        ensures
            final(self).stream() == old(self).stream(),
            final(self).offset() == old(self).offset() + 8,
            r == spec_u64_from_be_bytes(
                old(self).stream().subrange(old(self).offset(), old(self).offset() + 8),
            ),
    ;

    fn read_i64_be(&mut self) -> (r: i64)
        requires
            0 <= old(self).offset(),
            old(self).offset() + 8 <= old(self).stream().len(),
        ensures
            final(self).stream() == old(self).stream(),
            final(self).offset() == old(self).offset() + 8,
            r == spec_i64_from_be_bytes(
                old(self).stream().subrange(old(self).offset(), old(self).offset() + 8),
            ),
    ;

    fn read_i32_be(&mut self) -> (r: i32)
        requires
            0 <= old(self).offset(),
            old(self).offset() + 4 <= old(self).stream().len(),
        ensures
            final(self).stream() == old(self).stream(),
            final(self).offset() == old(self).offset() + 4,
            r == spec_i32_from_be_bytes(
                old(self).stream().subrange(old(self).offset(), old(self).offset() + 4),
            ),
    ;

    fn read_i32_le(&mut self) -> (r: i32)
        requires
            0 <= old(self).offset(),
            old(self).offset() + 4 <= old(self).stream().len(),
        ensures
            final(self).stream() == old(self).stream(),
            final(self).offset() == old(self).offset() + 4,
            r == spec_i32_from_le_bytes(
                old(self).stream().subrange(old(self).offset(), old(self).offset() + 4),
            ),
    ;

    fn read_u32_be(&mut self) -> (r: u32)
        requires
            0 <= old(self).offset(),
            old(self).offset() + 4 <= old(self).stream().len(),
        ensures
            final(self).stream() == old(self).stream(),
            final(self).offset() == old(self).offset() + 4,
            r == spec_u32_from_be_bytes(
                old(self).stream().subrange(old(self).offset(), old(self).offset() + 4),
            ),
    ;

    fn read_u32_le(&mut self) -> (r: u32)
        requires
            0 <= old(self).offset(),
            old(self).offset() + 4 <= old(self).stream().len(),
        ensures
            final(self).stream() == old(self).stream(),
            final(self).offset() == old(self).offset() + 4,
            r == spec_u32_from_le_bytes(
                old(self).stream().subrange(old(self).offset(), old(self).offset() + 4),
            ),
    ;
}

impl ReadInt for Cursor {
    open spec fn stream(&self) -> Seq<u8> {
        Cursor::stream(self)
    }

    open spec fn offset(&self) -> int {
        Cursor::offset(self)
    }

    fn read_byte(&mut self) -> (r: u8) {
        proof {
            vstd::std_specs::vec::axiom_spec_len(&self.data);
        }
        let b = self.data[self.pos];
        self.pos = self.pos + 1;
        b
    }

    fn read_u64_be(&mut self) -> (r: u64) {
        proof {
            vstd::std_specs::vec::axiom_spec_len(&self.data);
        }
        let b0 = self.data[self.pos];
        let b1 = self.data[self.pos + 1];
        let b2 = self.data[self.pos + 2];
        let b3 = self.data[self.pos + 3];
        let b4 = self.data[self.pos + 4];
        let b5 = self.data[self.pos + 5];
        let b6 = self.data[self.pos + 6];
        let b7 = self.data[self.pos + 7];
        self.pos = self.pos + 8;
        ((b0 as u64) << 56) | ((b1 as u64) << 48) | ((b2 as u64) << 40) | ((b3 as u64) << 32)
            | ((b4 as u64) << 24) | ((b5 as u64) << 16) | ((b6 as u64) << 8) | (b7 as u64)
    }

    fn read_i64_be(&mut self) -> (r: i64) {
        let bits = self.read_u64_be();
        i64_from_bits(bits)
    }

    fn read_i32_be(&mut self) -> (r: i32) {
        let bits = self.read_u32_be();
        i32_from_bits(bits)
    }

    fn read_i32_le(&mut self) -> (r: i32) {
        let bits = self.read_u32_le();
        i32_from_bits(bits)
    }

    fn read_u32_be(&mut self) -> (r: u32) {
        proof {
            vstd::std_specs::vec::axiom_spec_len(&self.data);
        }
        let b0 = self.data[self.pos];
        let b1 = self.data[self.pos + 1];
        let b2 = self.data[self.pos + 2];
        let b3 = self.data[self.pos + 3];
        self.pos = self.pos + 4;
        ((b0 as u32) << 24) | ((b1 as u32) << 16) | ((b2 as u32) << 8) | (b3 as u32)
    }

    fn read_u32_le(&mut self) -> (r: u32) {
        proof {
            vstd::std_specs::vec::axiom_spec_len(&self.data);
        }
        let b0 = self.data[self.pos];
        let b1 = self.data[self.pos + 1];
        let b2 = self.data[self.pos + 2];
        let b3 = self.data[self.pos + 3];
        self.pos = self.pos + 4;
        (b0 as u32) | ((b1 as u32) << 8) | ((b2 as u32) << 16) | ((b3 as u32) << 24)
    }
}

/// Writing fixed-width integers onto a byte stream. The output buffer only
/// ever grows; writes are total.
pub trait WriteInt {
    spec fn written(&self) -> Seq<u8>;

    fn write_byte(&mut self, val: u8)
        ensures
            final(self).written() == old(self).written().push(val),
    ;

    fn write_u64_be(&mut self, val: u64)
        ensures
            final(self).written() == old(self).written() + spec_u64_to_be_bytes(val),
    ;

    fn write_i64_be(&mut self, val: i64)
        ensures
            final(self).written() == old(self).written() + spec_i64_to_be_bytes(val),
    ;

    fn write_i32_be(&mut self, val: i32)
        ensures
            final(self).written() == old(self).written() + spec_i32_to_be_bytes(val),
    ;

    fn write_i32_le(&mut self, val: i32)
        ensures
            final(self).written() == old(self).written() + spec_i32_to_le_bytes(val),
    ;

    fn write_u32_be(&mut self, val: u32)
        ensures
            final(self).written() == old(self).written() + spec_u32_to_be_bytes(val),
    ;

    fn write_u32_le(&mut self, val: u32)
        ensures
            final(self).written() == old(self).written() + spec_u32_to_le_bytes(val),
    ;
}

impl WriteInt for Vec<u8> {
    open spec fn written(&self) -> Seq<u8> {
        self@
    }

    fn write_byte(&mut self, val: u8) {
        self.push(val);
    }

    fn write_u64_be(&mut self, val: u64) {
        proof {
            lemma_u64_byte_parts_bounded(val);
        }
        self.push(((val >> 56) & 0xff) as u8);
        self.push(((val >> 48) & 0xff) as u8);
        self.push(((val >> 40) & 0xff) as u8);
        self.push(((val >> 32) & 0xff) as u8);
        self.push(((val >> 24) & 0xff) as u8);
        self.push(((val >> 16) & 0xff) as u8);
        self.push(((val >> 8) & 0xff) as u8);
        self.push((val & 0xff) as u8);
        proof {
            assert(self@ =~= old(self)@ + spec_u64_to_be_bytes(val));
        }
    }

    fn write_i64_be(&mut self, val: i64) {
        let bits = i64_to_bits(val);
        self.write_u64_be(bits);
    }

    fn write_i32_be(&mut self, val: i32) {
        let bits = i32_to_bits(val);
        self.write_u32_be(bits);
    }

    fn write_i32_le(&mut self, val: i32) {
        let bits = i32_to_bits(val);
        self.write_u32_le(bits);
    }

    fn write_u32_be(&mut self, val: u32) {
        proof {
            lemma_u32_byte_parts_bounded(val);
        }
        self.push(((val >> 24) & 0xff) as u8);
        self.push(((val >> 16) & 0xff) as u8);
        self.push(((val >> 8) & 0xff) as u8);
        self.push((val & 0xff) as u8);
        proof {
            assert(self@ =~= old(self)@ + spec_u32_to_be_bytes(val));
        }
    }

    fn write_u32_le(&mut self, val: u32) {
        proof {
            lemma_u32_byte_parts_bounded(val);
        }
        self.push((val & 0xff) as u8);
        self.push(((val >> 8) & 0xff) as u8);
        self.push(((val >> 16) & 0xff) as u8);
        self.push(((val >> 24) & 0xff) as u8);
        proof {
            assert(self@ =~= old(self)@ + spec_u32_to_le_bytes(val));
        }
    }
}

/// Append raw bytes to an output buffer, unchanged and unprefixed.
pub fn write_all_bytes(writer: &mut Vec<u8>, bytes: &Vec<u8>)
    ensures
        final(writer)@ == old(writer)@ + bytes@,
{
    let mut i: usize = 0;
    while i < bytes.len()
        invariant
            i <= bytes@.len(),
            writer@ == old(writer)@ + bytes@.take(i as int),
        decreases bytes@.len() - i,
    {
        writer.push(bytes[i]);
        i = i + 1;
        proof {
            assert(old(writer)@ + bytes@.take(i - 1) + seq![bytes@[i - 1]] =~= old(writer)@
                + bytes@.take(i as int));
        }
    }
    proof {
        assert(bytes@.take(bytes@.len() as int) =~= bytes@);
    }
}

/// A type with a place in the wire format: a mathematical encoding, a
/// mathematical decoding, and executable readers and writers proved against
/// them. Decoding consumes exactly the bytes the value's own length fields
/// imply, never more, never fewer.
pub trait ReadWrite: DeepView + Sized {
    /// Well-formed in-memory values: exactly those the format can carry.
    spec fn wf(&self) -> bool;

    /// The unique wire image of an abstract value.
    spec fn spec_enc(m: Self::V) -> Seq<u8>;

    /// What decoding reads off the front of a stream: the abstract value and
    /// the exact number of bytes consumed, or the fatal error.
    spec fn spec_dec(s: Seq<u8>) -> Result<(Self::V, int), DecodeError>;

    /// Decoding never consumes more than the stream holds.
    proof fn lemma_dec_bounds(s: Seq<u8>)
        ensures
            Self::spec_dec(s) matches Ok((m, n)) ==> 0 <= n <= s.len(),
    ;

    /// Round trip: decoding the encoding of any well-formed value, whatever
    /// follows it, yields that value back and consumes exactly its encoding.
    proof fn lemma_round_trip(v: &Self, tail: Seq<u8>)
        requires
            v.wf(),
        ensures
            Self::spec_dec(Self::spec_enc(v.deep_view()) + tail) == Ok::<_, DecodeError>(
                (v.deep_view(), Self::spec_enc(v.deep_view()).len() as int),
            ),
    ;

    fn read_from(reader: &mut Cursor) -> (r: Result<Self, DecodeError>)
        requires
            old(reader).wf(),
        ensures
            final(reader).wf(),
            final(reader).stream() == old(reader).stream(),
            match Self::spec_dec(old(reader).remaining()) {
                Ok((m, n)) => {
                    &&& r matches Ok(v)
                    &&& v.deep_view() == m
                    &&& v.wf()
                    &&& final(reader).offset() == old(reader).offset() + n
                },
                Err(e) => r matches Err(e2) && e2 == e,
            },
    ;

    fn write_to(&self, writer: &mut Vec<u8>)
        requires
            self.wf(),
        ensures
            final(writer)@ == old(writer)@ + Self::spec_enc(self.deep_view()),
    ;
}

/// The abstract values of a sequence of concrete ones.
pub open spec fn seq_deep_view<T: DeepView>(s: Seq<T>) -> Seq<T::V> {
    Seq::new(s.len(), |i: int| s[i].deep_view())
}

/// Concatenated encodings of a sequence of abstract values, in order.
pub open spec fn spec_enc_elems<S: ReadWrite>(m: Seq<S::V>) -> Seq<u8>
    decreases m.len(),
{
    if m.len() == 0 {
        Seq::empty()
    } else {
        S::spec_enc(m[0]) + spec_enc_elems::<S>(m.drop_first())
    }
}

/// Decoding of exactly `count` consecutive values off the front of a stream.
pub open spec fn spec_dec_elems<S: ReadWrite>(s: Seq<u8>, count: int) -> Result<
    (Seq<S::V>, int),
    DecodeError,
>
    decreases count,
{
    if count <= 0 {
        Ok((Seq::empty(), 0))
    } else {
        match S::spec_dec(s) {
            Err(e) => Err(e),
            Ok((x, n)) => match spec_dec_elems::<S>(s.skip(n), count - 1) {
                Err(e) => Err(e),
                Ok((xs, ns)) => Ok((seq![x] + xs, n + ns)),
            },
        }
    }
}

pub proof fn lemma_enc_elems_snoc<S: ReadWrite>(m: Seq<S::V>, x: S::V)
    ensures
        spec_enc_elems::<S>(m.push(x)) == spec_enc_elems::<S>(m) + S::spec_enc(x),
    decreases m.len(),
{
    if m.len() == 0 {
        assert(m =~= Seq::<S::V>::empty());
        assert(m.push(x)[0] == x);
        assert(m.push(x).drop_first() =~= Seq::<S::V>::empty());
        assert(spec_enc_elems::<S>(Seq::<S::V>::empty()) == Seq::<u8>::empty());
        assert(spec_enc_elems::<S>(m.push(x)) =~= spec_enc_elems::<S>(m) + S::spec_enc(x));
    } else {
        assert(m.push(x).drop_first() =~= m.drop_first().push(x));
        lemma_enc_elems_snoc::<S>(m.drop_first(), x);
        assert(m.push(x)[0] == m[0]);
        assert(S::spec_enc(m[0]) + (spec_enc_elems::<S>(m.drop_first()) + S::spec_enc(x)) =~= (
        S::spec_enc(m[0]) + spec_enc_elems::<S>(m.drop_first())) + S::spec_enc(x));
    }
}

pub proof fn lemma_dec_elems_bounds<S: ReadWrite>(s: Seq<u8>, count: int)
    ensures
        spec_dec_elems::<S>(s, count) matches Ok((xs, n)) ==> 0 <= n <= s.len() && xs.len() == (
        if count <= 0 {
            0int
        } else {
            count
        }),
    decreases count,
{
    if count > 0 {
        match S::spec_dec(s) {
            Err(_) => {},
            Ok((x, n)) => {
                S::lemma_dec_bounds(s);
                lemma_dec_elems_bounds::<S>(s.skip(n), count - 1);
            },
        }
    }
}

/// Decoding the concatenated encodings of well-formed values, whatever
/// follows them, yields exactly those values back.
pub proof fn lemma_elems_round_trip<S: ReadWrite>(elems: Seq<S>, tail: Seq<u8>)
    requires
        forall|i: int| 0 <= i < elems.len() ==> #[trigger] elems[i].wf(),
    ensures
        spec_dec_elems::<S>(spec_enc_elems::<S>(seq_deep_view(elems)) + tail, elems.len() as int)
            == Ok::<_, DecodeError>(
            (seq_deep_view(elems), spec_enc_elems::<S>(seq_deep_view(elems)).len() as int),
        ),
    decreases elems.len(),
{
    let dv = seq_deep_view(elems);
    if elems.len() == 0 {
        assert(spec_enc_elems::<S>(dv) + tail =~= tail);
        assert(dv =~= Seq::<S::V>::empty());
    } else {
        let first = elems[0];
        let rest = elems.drop_first();
        let rdv = seq_deep_view(rest);
        assert(dv.drop_first() =~= rdv);
        let e0 = S::spec_enc(dv[0]);
        let erest = spec_enc_elems::<S>(rdv);
        assert(spec_enc_elems::<S>(dv) == e0 + erest);
        assert(first.deep_view() == dv[0]);
        S::lemma_round_trip(&first, erest + tail);
        assert((e0 + erest) + tail =~= e0 + (erest + tail));
        S::lemma_dec_bounds(e0 + (erest + tail));
        assert((e0 + (erest + tail)).skip(e0.len() as int) =~= erest + tail);
        lemma_elems_round_trip::<S>(rest, tail);
        assert(seq![dv[0]] + rdv =~= dv);
        assert(spec_dec_elems::<S>(spec_enc_elems::<S>(dv) + tail, elems.len() as int)
            == Ok::<_, DecodeError>((dv, (e0.len() + erest.len()) as int)));
        assert((e0 + erest).len() == e0.len() + erest.len());
    }
}

impl ReadWrite for u64 {
    open spec fn wf(&self) -> bool {
        true
    }

    open spec fn spec_enc(m: u64) -> Seq<u8> {
        spec_u64_to_be_bytes(m)
    }

    open spec fn spec_dec(s: Seq<u8>) -> Result<(u64, int), DecodeError> {
        if s.len() >= 8 {
            Ok((spec_u64_from_be_bytes(s.take(8)), 8))
        } else {
            Err(DecodeError::Truncated)
        }
    }

    proof fn lemma_dec_bounds(s: Seq<u8>) {
    }

    proof fn lemma_round_trip(v: &u64, tail: Seq<u8>) {
        lemma_u64_be_round_trip(*v);
        assert((spec_u64_to_be_bytes(*v) + tail).take(8) =~= spec_u64_to_be_bytes(*v));
    }

    fn read_from(reader: &mut Cursor) -> (r: Result<u64, DecodeError>) {
        if reader.remaining_len() >= 8 {
            let x = reader.read_u64_be();
            proof {
                assert(old(reader).stream().subrange(
                    old(reader).offset(),
                    old(reader).offset() + 8,
                ) =~= old(reader).remaining().take(8));
            }
            Ok(x)
        } else {
            Err(DecodeError::Truncated)
        }
    }

    fn write_to(&self, writer: &mut Vec<u8>) {
        writer.write_u64_be(*self);
    }
}

impl ReadWrite for Vec<u8> {
    open spec fn wf(&self) -> bool {
        self@.len() <= u32::MAX
    }

    open spec fn spec_enc(m: Seq<u8>) -> Seq<u8> {
        spec_u32_to_be_bytes(m.len() as u32) + m
    }

    open spec fn spec_dec(s: Seq<u8>) -> Result<(Seq<u8>, int), DecodeError> {
        if s.len() < 4 {
            Err(DecodeError::Truncated)
        } else {
            let n = spec_u32_from_be_bytes(s.take(4)) as int;
            if s.len() < 4 + n {
                Err(DecodeError::Truncated)
            } else {
                Ok((s.subrange(4, 4 + n), 4 + n))
            }
        }
    }

    proof fn lemma_dec_bounds(s: Seq<u8>) {
    }

    proof fn lemma_round_trip(v: &Vec<u8>, tail: Seq<u8>) {
        let m = v.deep_view();
        assert(m =~= v@);
        let e = spec_u32_to_be_bytes(m.len() as u32) + m;
        lemma_u32_be_round_trip(m.len() as u32);
        assert((e + tail).take(4) =~= spec_u32_to_be_bytes(m.len() as u32));
        assert((e + tail).subrange(4, 4 + m.len() as int) =~= m);
    }

    fn read_from(reader: &mut Cursor) -> (r: Result<Vec<u8>, DecodeError>) {
        if reader.remaining_len() < 4 {
            return Err(DecodeError::Truncated);
        }
        let n = reader.read_u32_be();
        proof {
            assert(old(reader).stream().subrange(old(reader).offset(), old(reader).offset() + 4)
                =~= old(reader).remaining().take(4));
        }
        if reader.remaining_len() < n as usize {
            return Err(DecodeError::Truncated);
        }
        let v = reader.read_bytes(n as usize);
        proof {
            assert(v@ =~= old(reader).remaining().subrange(4, 4 + n as int));
            assert(v.deep_view() =~= v@);
        }
        Ok(v)
    }

    fn write_to(&self, writer: &mut Vec<u8>) {
        writer.write_u32_be(self.len() as u32);
        write_all_bytes(writer, self);
        proof {
            assert(self.deep_view() =~= self@);
            assert(old(writer)@ + spec_u32_to_be_bytes(self@.len() as u32) + self@ =~= old(writer)@
                + <Vec<u8> as ReadWrite>::spec_enc(self.deep_view()));
        }
    }
}

/// Relies on `String::from_utf8`: it succeeds exactly on input that is valid
/// UTF-8 and returns the string those bytes encode.
#[verifier::external_body]
fn string_from_utf8(bytes: Vec<u8>) -> (r: Option<String>)
    ensures
        match r {
            Some(s) => vstd::utf8::valid_utf8(bytes@) && s@ == vstd::utf8::decode_utf8(bytes@),
            None => !vstd::utf8::valid_utf8(bytes@),
        },
{
    String::from_utf8(bytes).ok()
}

impl ReadWrite for String {
    open spec fn wf(&self) -> bool {
        vstd::utf8::encode_utf8(self@).len() <= u32::MAX
    }

    open spec fn spec_enc(m: Seq<char>) -> Seq<u8> {
        spec_u32_to_be_bytes(vstd::utf8::encode_utf8(m).len() as u32) + vstd::utf8::encode_utf8(m)
    }

    open spec fn spec_dec(s: Seq<u8>) -> Result<(Seq<char>, int), DecodeError> {
        if s.len() < 4 {
            Err(DecodeError::Truncated)
        } else {
            let n = spec_u32_from_be_bytes(s.take(4)) as int;
            if s.len() < 4 + n {
                Err(DecodeError::Truncated)
            } else if !vstd::utf8::valid_utf8(s.subrange(4, 4 + n)) {
                Err(DecodeError::InvalidUtf8)
            } else {
                Ok((vstd::utf8::decode_utf8(s.subrange(4, 4 + n)), 4 + n))
            }
        }
    }

    proof fn lemma_dec_bounds(s: Seq<u8>) {
    }

    proof fn lemma_round_trip(v: &String, tail: Seq<u8>) {
        let m = v.deep_view();
        assert(m == v@);
        let b = vstd::utf8::encode_utf8(m);
        let e = spec_u32_to_be_bytes(b.len() as u32) + b;
        lemma_u32_be_round_trip(b.len() as u32);
        assert((e + tail).take(4) =~= spec_u32_to_be_bytes(b.len() as u32));
        assert((e + tail).subrange(4, 4 + b.len() as int) =~= b);
        vstd::utf8::encode_utf8_valid_utf8(m);
        vstd::utf8::encode_utf8_decode_utf8(m);
    }

    fn read_from(reader: &mut Cursor) -> (r: Result<String, DecodeError>) {
        if reader.remaining_len() < 4 {
            return Err(DecodeError::Truncated);
        }
        let n = reader.read_u32_be();
        proof {
            assert(old(reader).stream().subrange(old(reader).offset(), old(reader).offset() + 4)
                =~= old(reader).remaining().take(4));
        }
        if reader.remaining_len() < n as usize {
            return Err(DecodeError::Truncated);
        }
        let bytes = reader.read_bytes(n as usize);
        proof {
            assert(bytes@ =~= old(reader).remaining().subrange(4, 4 + n as int));
        }
        match string_from_utf8(bytes) {
            Some(text) => {
                proof {
                    vstd::utf8::decode_utf8_encode_utf8(
                        old(reader).remaining().subrange(4, 4 + n as int),
                    );
                }
                Ok(text)
            },
            None => Err(DecodeError::InvalidUtf8),
        }
    }

    fn write_to(&self, writer: &mut Vec<u8>) {
        let byte_len: usize = self.as_str().len();
        writer.write_u32_be(byte_len as u32);
        let bytes = self.as_str().as_bytes_vec();
        write_all_bytes(writer, &bytes);
        proof {
            assert(old(writer)@ + spec_u32_to_be_bytes(byte_len as u32) + bytes@ =~= old(writer)@
                + <String as ReadWrite>::spec_enc(self.deep_view()));
        }
    }
}

impl<S: ReadWrite> ReadWrite for Option<S> {
    open spec fn wf(&self) -> bool {
        match self {
            Option::None => true,
            Option::Some(v) => v.wf(),
        }
    }

    open spec fn spec_enc(m: Option<S::V>) -> Seq<u8> {
        match m {
            Option::None => seq![0u8],
            Option::Some(x) => seq![1u8] + S::spec_enc(x),
        }
    }

    open spec fn spec_dec(s: Seq<u8>) -> Result<(Option<S::V>, int), DecodeError> {
        if s.len() < 1 {
            Err(DecodeError::Truncated)
        } else if s[0] == 0 {
            Ok((Option::None, 1))
        } else {
            match S::spec_dec(s.skip(1)) {
                Err(e) => Err(e),
                Ok((x, n)) => Ok((Option::Some(x), 1 + n)),
            }
        }
    }

    proof fn lemma_dec_bounds(s: Seq<u8>) {
        if s.len() >= 1 && s[0] != 0 {
            S::lemma_dec_bounds(s.skip(1));
        }
    }

    proof fn lemma_round_trip(v: &Option<S>, tail: Seq<u8>) {
        match v {
            Option::None => {
                assert((seq![0u8] + tail)[0] == 0);
            },
            Option::Some(inner) => {
                let e = seq![1u8] + S::spec_enc(inner.deep_view());
                assert((e + tail)[0] == 1);
                S::lemma_round_trip(inner, tail);
                assert((e + tail).skip(1) =~= S::spec_enc(inner.deep_view()) + tail);
            },
        }
    }

    fn read_from(reader: &mut Cursor) -> (r: Result<Option<S>, DecodeError>) {
        if reader.remaining_len() < 1 {
            return Err(DecodeError::Truncated);
        }
        let marker = reader.read_byte();
        if marker == 0 {
            Ok(Option::None)
        } else {
            proof {
                assert(reader.remaining() =~= old(reader).remaining().skip(1));
            }
            match S::read_from(reader) {
                Ok(inner) => Ok(Option::Some(inner)),
                Err(e) => Err(e),
            }
        }
    }

    fn write_to(&self, writer: &mut Vec<u8>) {
        match self {
            Option::None => {
                writer.write_byte(0);
                proof {
                    assert(old(writer)@.push(0u8) =~= old(writer)@ + seq![0u8]);
                }
            },
            Option::Some(inner) => {
                writer.write_byte(1);
                inner.write_to(writer);
                proof {
                    assert(old(writer)@.push(1u8) + S::spec_enc(inner.deep_view()) =~= old(
                        writer,
                    )@ + (seq![1u8] + S::spec_enc(inner.deep_view())));
                }
            },
        }
    }
}

impl<S: ReadWrite> ReadWrite for Vec<S> {
    open spec fn wf(&self) -> bool {
        &&& self@.len() <= i32::MAX
        &&& forall|i: int| 0 <= i < self@.len() ==> #[trigger] self@[i].wf()
    }

    open spec fn spec_enc(m: Seq<S::V>) -> Seq<u8> {
        spec_i32_to_be_bytes(m.len() as i32) + spec_enc_elems::<S>(m)
    }

    open spec fn spec_dec(s: Seq<u8>) -> Result<(Seq<S::V>, int), DecodeError> {
        if s.len() < 4 {
            Err(DecodeError::Truncated)
        } else {
            let c = spec_i32_from_be_bytes(s.take(4));
            if c < 0 {
                Err(DecodeError::MalformedLength)
            } else {
                match spec_dec_elems::<S>(s.skip(4), c as int) {
                    Err(e) => Err(e),
                    Ok((xs, n)) => Ok((xs, 4 + n)),
                }
            }
        }
    }

    proof fn lemma_dec_bounds(s: Seq<u8>) {
        if s.len() >= 4 {
            let c = spec_i32_from_be_bytes(s.take(4));
            if c >= 0 {
                lemma_dec_elems_bounds::<S>(s.skip(4), c as int);
            }
        }
    }

    proof fn lemma_round_trip(v: &Vec<S>, tail: Seq<u8>) {
        let dv = v.deep_view();
        assert(dv =~= seq_deep_view(v@));
        let c: i32 = dv.len() as i32;
        let eb = spec_enc_elems::<S>(dv);
        let e = spec_i32_to_be_bytes(c) + eb;
        lemma_i32_be_round_trip(c);
        assert((e + tail).take(4) =~= spec_i32_to_be_bytes(c));
        assert((e + tail).skip(4) =~= eb + tail);
        lemma_elems_round_trip::<S>(v@, tail);
    }

    fn read_from(reader: &mut Cursor) -> (r: Result<Vec<S>, DecodeError>) {
        if reader.remaining_len() < 4 {
            return Err(DecodeError::Truncated);
        }
        let c = reader.read_i32_be();
        proof {
            assert(old(reader).stream().subrange(old(reader).offset(), old(reader).offset() + 4)
                =~= old(reader).remaining().take(4));
        }
        if c < 0 {
            return Err(DecodeError::MalformedLength);
        }
        let count = c as usize;
        let ghost base = reader.remaining();
        let ghost base_off = reader.offset();
        let mut result: Vec<S> = Vec::new();
        let mut i: usize = 0;
        while i < count
            invariant
                reader.wf(),
                reader.stream() == old(reader).stream(),
                old(reader).wf(),
                old(reader).remaining().len() >= 4,
                count == spec_i32_from_be_bytes(old(reader).remaining().take(4)),
                count <= i32::MAX,
                base == old(reader).remaining().skip(4),
                base_off == old(reader).offset() + 4,
                base_off <= reader.offset() <= reader.stream().len(),
                i <= count,
                result@.len() == i,
                forall|j: int| 0 <= j < result@.len() ==> #[trigger] result@[j].wf(),
                match spec_dec_elems::<S>(reader.remaining(), count - i) {
                    Ok((xs, n)) => spec_dec_elems::<S>(base, count as int) == Ok::<
                        _,
                        DecodeError,
                    >((result.deep_view() + xs, (reader.offset() - base_off) + n)),
                    Err(e) => spec_dec_elems::<S>(base, count as int) == Err::<
                        (Seq<S::V>, int),
                        _,
                    >(e),
                },
            decreases count - i,
        {
            let ghost rem_before = reader.remaining();
            let ghost off_before = reader.offset();
            match S::read_from(reader) {
                Err(e) => {
                    proof {
                        assert(spec_dec_elems::<S>(rem_before, count - i) == Err::<
                            (Seq<S::V>, int),
                            _,
                        >(e));
                    }
                    return Err(e);
                },
                Ok(x) => {
                    let ghost x_dv = x.deep_view();
                    let ghost prev_dv = result.deep_view();
                    result.push(x);
                    i = i + 1;
                    proof {
                        let k = reader.offset() - off_before;
                        S::lemma_dec_bounds(rem_before);
                        assert(reader.remaining() =~= rem_before.skip(k));
                        assert(result.deep_view() =~= prev_dv.push(x_dv));
                        let r2 = spec_dec_elems::<S>(reader.remaining(), count - i);
                        match r2 {
                            Ok((xs2, n2)) => {
                                assert(spec_dec_elems::<S>(rem_before, count - (i - 1)) == Ok::<
                                    _,
                                    DecodeError,
                                >((seq![x_dv] + xs2, k + n2)));
                                assert(prev_dv + (seq![x_dv] + xs2) =~= result.deep_view() + xs2);
                            },
                            Err(e2) => {
                                assert(spec_dec_elems::<S>(rem_before, count - (i - 1)) == Err::<
                                    (Seq<S::V>, int),
                                    _,
                                >(e2));
                            },
                        }
                    }
                },
            }
        }
        proof {
            assert(result.deep_view() + Seq::<S::V>::empty() =~= result.deep_view());
        }
        Ok(result)
    }

    fn write_to(&self, writer: &mut Vec<u8>) {
        let c: i32 = self.len() as i32;
        writer.write_i32_be(c);
        let ghost base = writer@;
        let mut i: usize = 0;
        while i < self.len()
            invariant
                base == old(writer)@ + spec_i32_to_be_bytes(self@.len() as i32),
                i <= self@.len(),
                self.wf(),
                writer@ == base + spec_enc_elems::<S>(seq_deep_view(self@.take(i as int))),
            decreases self@.len() - i,
        {
            let elem = &self[i];
            elem.write_to(writer);
            i = i + 1;
            proof {
                let prev = seq_deep_view(self@.take(i - 1));
                assert(seq_deep_view(self@.take(i as int)) =~= prev.push(elem.deep_view()));
                lemma_enc_elems_snoc::<S>(prev, elem.deep_view());
                assert(base + (spec_enc_elems::<S>(prev) + S::spec_enc(elem.deep_view())) =~= (base
                    + spec_enc_elems::<S>(prev)) + S::spec_enc(elem.deep_view()));
            }
        }
        proof {
            assert(seq_deep_view(self@.take(self@.len() as int)) =~= seq_deep_view(self@));
            assert(seq_deep_view(self@) =~= self.deep_view());
            assert(base + spec_enc_elems::<S>(self.deep_view()) =~= old(writer)@ + <Vec<
                S,
            > as ReadWrite>::spec_enc(self.deep_view()));
        }
    }
}

/// A fresh buffer holding the same bytes.
pub fn copy_bytes(v: &Vec<u8>) -> (r: Vec<u8>)
    ensures
        r@ == v@,
{
    let mut r: Vec<u8> = Vec::new();
    let mut i: usize = 0;
    while i < v.len()
        invariant
            i <= v@.len(),
            r@ == v@.take(i as int),
        decreases v@.len() - i,
    {
        r.push(v[i]);
        i = i + 1;
        proof {
            assert(v@.take(i - 1).push(v@[i - 1]) =~= v@.take(i as int));
        }
    }
    proof {
        assert(v@.take(v@.len() as int) =~= v@);
    }
    r
}

} // verus!

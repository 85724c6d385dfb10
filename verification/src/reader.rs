//! Unmarshaling of primitive values from an in-memory message buffer.
//! Reads mirror writes and fail closed: truncated input, non-zero alignment
//! padding, invalid UTF-8, out-of-range booleans and oversize values are
//! decode errors, never panics and never silent truncation. A failed read
//! leaves the reader's position unchanged.

use crate::type_system::{
    valid_object_path, valid_signature, ObjectPath, Signature,
};
use crate::wire::{
    enc_signature, enc_string_at, lemma_pad_len, lemma_u32_dec_enc, lemma_u32_round_trip, pad_len,
    reversed, spec_dec_u16, spec_dec_u32, spec_dec_u64, spec_enc_u32, spec_u16_to_i16,
    spec_u32_to_i32, spec_u64_to_i64, string_from_utf8, u16_to_i16, u32_to_i32, u64_to_i64,
    zero_pad, DecodeError, Endianness,
};
use vstd::bytes::{u16_from_le_bytes, u32_from_le_bytes, u64_from_le_bytes};
use vstd::prelude::*;
use vstd::utf8::{decode_utf8_encode_utf8, encode_utf8, encode_utf8_decode_utf8};

verus! {

/// True when the bytes of `data` from `off` on carry the string `t`: the
/// alignment padding, the u32 byte-length prefix, the UTF-8 bytes of `t`
/// and the NUL terminator.
pub open spec fn string_at(data: Seq<u8>, off: int, e: Endianness, t: Seq<char>) -> bool {
    &&& encode_utf8(t).len() <= u32::MAX
    &&& off + enc_string_at(off, e, t).len() <= data.len()
    &&& data.subrange(off, off + enc_string_at(off, e, t).len()) == enc_string_at(off, e, t)
}

/// True when the bytes of `data` from `off` on carry the valid signature
/// `t`: the single-byte length prefix, the UTF-8 bytes of `t` and the NUL
/// terminator.
pub open spec fn signature_at(data: Seq<u8>, off: int, t: Seq<char>) -> bool {
    &&& valid_signature(t)
    &&& off + enc_signature(t).len() <= data.len()
    &&& data.subrange(off, off + enc_signature(t).len()) == enc_signature(t)
}

/// At one offset, at most one string is carried: the length prefix pins the
/// byte count and UTF-8 decoding is unique.
pub proof fn lemma_string_at_unique(
    data: Seq<u8>,
    off: int,
    e: Endianness,
    t1: Seq<char>,
    t2: Seq<char>,
)
    requires
        off >= 0,
        string_at(data, off, e, t1),
        string_at(data, off, e, t2),
    ensures
        t1 == t2,
{
    let p = pad_len(off, 4);
    lemma_pad_len(off, 4);
    let n1 = encode_utf8(t1).len() as int;
    let n2 = encode_utf8(t2).len() as int;
    lemma_u32_round_trip(e, n1 as u32);
    lemma_u32_round_trip(e, n2 as u32);
    let e1 = enc_string_at(off, e, t1);
    let e2 = enc_string_at(off, e, t2);
    assert(e1.len() == p + 4 + n1 + 1);
    assert(e2.len() == p + 4 + n2 + 1);
    let s1 = data.subrange(off, off + e1.len());
    let s2 = data.subrange(off, off + e2.len());
    assert(s1.subrange(p, p + 4) =~= spec_enc_u32(e, n1 as u32));
    assert(s2.subrange(p, p + 4) =~= spec_enc_u32(e, n2 as u32));
    assert(s1.subrange(p, p + 4) =~= data.subrange(off + p, off + p + 4));
    assert(s2.subrange(p, p + 4) =~= data.subrange(off + p, off + p + 4));
    lemma_u32_round_trip(e, n1 as u32);
    lemma_u32_round_trip(e, n2 as u32);
    assert(spec_dec_u32(e, spec_enc_u32(e, n1 as u32)) == n1 as u32);
    assert(spec_dec_u32(e, spec_enc_u32(e, n2 as u32)) == n2 as u32);
    assert(n1 == n2);
    assert(s1.subrange(p + 4, p + 4 + n1) =~= encode_utf8(t1));
    assert(s2.subrange(p + 4, p + 4 + n2) =~= encode_utf8(t2));
    assert(s1.subrange(p + 4, p + 4 + n1) =~= data.subrange(off + p + 4, off + p + 4 + n1));
    assert(s2.subrange(p + 4, p + 4 + n2) =~= data.subrange(off + p + 4, off + p + 4 + n2));
    assert(encode_utf8(t1) == encode_utf8(t2));
    encode_utf8_decode_utf8(t1);
    encode_utf8_decode_utf8(t2);
}

/// At one offset, at most one signature is carried: the length byte pins
/// the byte count and UTF-8 decoding is unique.
pub proof fn lemma_signature_at_unique(data: Seq<u8>, off: int, t1: Seq<char>, t2: Seq<char>)
    requires
        off >= 0,
        signature_at(data, off, t1),
        signature_at(data, off, t2),
    ensures
        t1 == t2,
{
    let n1 = encode_utf8(t1).len() as int;
    let n2 = encode_utf8(t2).len() as int;
    let e1 = enc_signature(t1);
    let e2 = enc_signature(t2);
    assert(data.subrange(off, off + e1.len())[0] == e1[0]);
    assert(data.subrange(off, off + e2.len())[0] == e2[0]);
    assert(n1 <= 255 && n2 <= 255);
    assert(e1[0] == n1 as u8 && e2[0] == n2 as u8);
    assert(n1 == n2);
    assert(data.subrange(off + 1, off + 1 + n1) =~= encode_utf8(t1)) by {
        assert forall|k: int| 0 <= k < n1 implies data[off + 1 + k] == encode_utf8(t1)[k] by {
            assert(data.subrange(off, off + e1.len())[1 + k] == e1[1 + k]);
        }
    }
    assert(data.subrange(off + 1, off + 1 + n2) =~= encode_utf8(t2)) by {
        assert forall|k: int| 0 <= k < n2 implies data[off + 1 + k] == encode_utf8(t2)[k] by {
            assert(data.subrange(off, off + e2.len())[1 + k] == e2[1 + k]);
        }
    }
    assert(encode_utf8(t1) == encode_utf8(t2));
    encode_utf8_decode_utf8(t1);
    encode_utf8_decode_utf8(t2);
}

/// Unmarshals values from a byte buffer in one fixed byte order, tracking a
/// read position.
pub struct DbusReader {
    pub endianness: Endianness,
    pub data: Vec<u8>,
    pub pos: usize,
}

impl DbusReader {
    /// The position never runs past the end of the data.
    pub open spec fn wf(&self) -> bool {
        self.pos <= self.data@.len()
    }

    /// Everything a read leaves unchanged: the data and the byte order.
    pub open spec fn same_source(&self, other: &DbusReader) -> bool {
        self.endianness == other.endianness && self.data@ == other.data@
    }

    /// A reader over `data` in byte order `endianness`, positioned at the
    /// start.
    pub fn new(data: Vec<u8>, endianness: Endianness) -> (r: DbusReader)
        ensures
            r.endianness == endianness,
            r.data@ == data@,
            r.pos == 0,
            r.wf(),
    {
        DbusReader { endianness, data, pos: 0 }
    }

    /// An `Invalid`-tagged header field can never be unmarshaled.
    pub fn read_invalid(&self) -> (r: Result<(), DecodeError>)
        ensures
            r == Err::<(), DecodeError>(DecodeError::InvalidHeaderField),
    {
        Err(DecodeError::InvalidHeaderField)
    }

    /// Copies `count` bytes starting at `start` out of the data.
    #[verifier::loop_isolation(false)]
    pub(crate) fn copy_range(&self, start: usize, count: usize) -> (r: Vec<u8>)
        requires
            start + count <= self.data@.len(),
        ensures
            r@ == self.data@.subrange(start as int, start as int + count as int),
    {
        let dlen = self.data.len();
        let mut r: Vec<u8> = Vec::new();
        let mut i: usize = 0;
        while i < count
            invariant
                0 <= i <= count,
                dlen == self.data@.len(),
                r@ == self.data@.subrange(start as int, start as int + i as int),
            decreases count - i,
        {
            let b = self.data[start + i];
            r.push(b);
            proof {
                assert(self.data@.subrange(start as int, start as int + i as int + 1)
                    =~= self.data@.subrange(start as int, start as int + i as int).push(b));
            }
            i = i + 1;
        }
        r
    }

    /// Consumes the zero padding that brings the position up to alignment
    /// `a`, validating that every skipped byte is zero.
    #[verifier::loop_isolation(false)]
    pub(crate) fn align_to(&mut self, a: usize) -> (r: Result<(), DecodeError>)
        requires
            a == 1 || a == 2 || a == 4 || a == 8,
            old(self).wf(),
        ensures
            old(self).same_source(&*final(self)),
            final(self).wf(),
            ({
                let off = old(self).pos as int;
                let p = pad_len(off, a as int);
                let data = old(self).data@;
                match r {
                    Ok(()) => off + p <= data.len() && final(self).pos == off + p
                        && data.subrange(off, off + p) =~= zero_pad(off, a as int),
                    Err(DecodeError::Truncated) => off + p > data.len() && final(self).pos == off,
                    Err(DecodeError::NonZeroPadding) => off + p <= data.len() && !(data.subrange(
                        off,
                        off + p,
                    ) =~= zero_pad(off, a as int)) && final(self).pos == off,
                    Err(_) => false,
                }
            }),
    {
        proof {
            lemma_pad_len(self.pos as int, a as int);
        }
        let rem = self.pos % a;
        if rem == 0 {
            proof {
                assert(self.data@.subrange(self.pos as int, self.pos as int) =~= zero_pad(
                    self.pos as int,
                    a as int,
                ));
            }
            return Ok(());
        }
        let p = a - rem;
        if p > self.data.len() - self.pos {
            return Err(DecodeError::Truncated);
        }
        let mut i: usize = 0;
        while i < p
            invariant
                0 <= i <= p,
                forall|j: int|
                    old(self).pos <= j < old(self).pos + i ==> old(self).data@[j] == 0u8,
                self == old(self),
            decreases p - i,
        {
            if self.data[self.pos + i] != 0 {
                proof {
                    let off = old(self).pos as int;
                    assert(old(self).data@.subrange(off, off + p)[i as int] != 0u8);
                    assert(zero_pad(off, a as int)[i as int] == 0u8);
                }
                return Err(DecodeError::NonZeroPadding);
            }
            i = i + 1;
        }
        self.pos = self.pos + p;
        proof {
            let off = old(self).pos as int;
            assert(old(self).data@.subrange(off, off + p) =~= zero_pad(off, a as int));
        }
        Ok(())
    }

    /// A single byte; no alignment.
    pub fn read_u8(&mut self) -> (r: Result<u8, DecodeError>)
        requires
            old(self).wf(),
        ensures
            old(self).same_source(&*final(self)),
            final(self).wf(),
            match r {
                Ok(v) => old(self).pos + 1 <= old(self).data@.len() && final(self).pos == old(
                    self,
                ).pos + 1 && v == old(self).data@[old(self).pos as int],
                Err(e) => e == DecodeError::Truncated && old(self).pos + 1 > old(
                    self,
                ).data@.len() && final(self).pos == old(self).pos,
            },
    {
        if self.pos >= self.data.len() {
            return Err(DecodeError::Truncated);
        }
        let v = self.data[self.pos];
        self.pos = self.pos + 1;
        Ok(v)
    }

    /// 16-bit unsigned integer in the message's byte order; alignment 2.
    pub fn read_u16(&mut self) -> (r: Result<u16, DecodeError>)
        requires
            old(self).wf(),
        ensures
            old(self).same_source(&*final(self)),
            final(self).wf(),
            ({
                let off = old(self).pos as int;
                let p = pad_len(off, 2);
                let e = old(self).endianness;
                let data = old(self).data@;
                match r {
                    Ok(v) => off + p + 2 <= data.len() && data.subrange(off, off + p) =~= zero_pad(
                        off,
                        2,
                    ) && v == spec_dec_u16(e, data.subrange(off + p, off + p + 2)) && final(self).pos == off + p + 2,
                    Err(DecodeError::Truncated) => off + p + 2 > data.len() && final(self).pos
                        == off,
                    Err(DecodeError::NonZeroPadding) => off + p <= data.len() && !(data.subrange(
                        off,
                        off + p,
                    ) =~= zero_pad(off, 2)) && final(self).pos == off,
                    Err(_) => false,
                }
            }),
    {
        let saved = self.pos;
        match self.align_to(2) {
            Ok(()) => {},
            Err(e) => {
                return Err(e);
            },
        }
        if 2 > self.data.len() - self.pos {
            self.pos = saved;
            return Err(DecodeError::Truncated);
        }
        let seg = self.copy_range(self.pos, 2);
        let v = match self.endianness {
            Endianness::Little => u16_from_le_bytes(seg.as_slice()),
            Endianness::Big => {
                let rb = reversed(&seg);
                u16_from_le_bytes(rb.as_slice())
            },
        };
        self.pos = self.pos + 2;
        Ok(v)
    }

    /// 32-bit unsigned integer in the message's byte order; alignment 4.
    pub fn read_u32(&mut self) -> (r: Result<u32, DecodeError>)
        requires
            old(self).wf(),
        ensures
            old(self).same_source(&*final(self)),
            final(self).wf(),
            ({
                let off = old(self).pos as int;
                let p = pad_len(off, 4);
                let e = old(self).endianness;
                let data = old(self).data@;
                match r {
                    Ok(v) => off + p + 4 <= data.len() && data.subrange(off, off + p) =~= zero_pad(
                        off,
                        4,
                    ) && v == spec_dec_u32(e, data.subrange(off + p, off + p + 4)) && final(self).pos == off + p + 4,
                    Err(DecodeError::Truncated) => off + p + 4 > data.len() && final(self).pos
                        == off,
                    Err(DecodeError::NonZeroPadding) => off + p <= data.len() && !(data.subrange(
                        off,
                        off + p,
                    ) =~= zero_pad(off, 4)) && final(self).pos == off,
                    Err(_) => false,
                }
            }),
    {
        let saved = self.pos;
        match self.align_to(4) {
            Ok(()) => {},
            Err(e) => {
                return Err(e);
            },
        }
        if 4 > self.data.len() - self.pos {
            self.pos = saved;
            return Err(DecodeError::Truncated);
        }
        let seg = self.copy_range(self.pos, 4);
        let v = match self.endianness {
            Endianness::Little => u32_from_le_bytes(seg.as_slice()),
            Endianness::Big => {
                let rb = reversed(&seg);
                u32_from_le_bytes(rb.as_slice())
            },
        };
        self.pos = self.pos + 4;
        Ok(v)
    }

    /// 64-bit unsigned integer in the message's byte order; alignment 8.
    pub fn read_u64(&mut self) -> (r: Result<u64, DecodeError>)
        requires
            old(self).wf(),
        ensures
            old(self).same_source(&*final(self)),
            final(self).wf(),
            ({
                let off = old(self).pos as int;
                let p = pad_len(off, 8);
                let e = old(self).endianness;
                let data = old(self).data@;
                match r {
                    Ok(v) => off + p + 8 <= data.len() && data.subrange(off, off + p) =~= zero_pad(
                        off,
                        8,
                    ) && v == spec_dec_u64(e, data.subrange(off + p, off + p + 8)) && final(self).pos == off + p + 8,
                    Err(DecodeError::Truncated) => off + p + 8 > data.len() && final(self).pos
                        == off,
                    Err(DecodeError::NonZeroPadding) => off + p <= data.len() && !(data.subrange(
                        off,
                        off + p,
                    ) =~= zero_pad(off, 8)) && final(self).pos == off,
                    Err(_) => false,
                }
            }),
    {
        let saved = self.pos;
        match self.align_to(8) {
            Ok(()) => {},
            Err(e) => {
                return Err(e);
            },
        }
        if 8 > self.data.len() - self.pos {
            self.pos = saved;
            return Err(DecodeError::Truncated);
        }
        let seg = self.copy_range(self.pos, 8);
        let v = match self.endianness {
            Endianness::Little => u64_from_le_bytes(seg.as_slice()),
            Endianness::Big => {
                let rb = reversed(&seg);
                u64_from_le_bytes(rb.as_slice())
            },
        };
        self.pos = self.pos + 8;
        Ok(v)
    }

    /// A boolean travels as a u32; only 0 and 1 are legal on decode, any
    /// other value is an error, never coerced.
    pub fn read_boolean(&mut self) -> (r: Result<bool, DecodeError>)
        requires
            old(self).wf(),
        ensures
            old(self).same_source(&*final(self)),
            final(self).wf(),
            ({
                let off = old(self).pos as int;
                let p = pad_len(off, 4);
                let e = old(self).endianness;
                let data = old(self).data@;
                match r {
                    Ok(b) => off + p + 4 <= data.len() && data.subrange(off, off + p) =~= zero_pad(
                        off,
                        4,
                    ) && spec_dec_u32(e, data.subrange(off + p, off + p + 4)) == (if b {
                        1u32
                    } else {
                        0u32
                    }) && final(self).pos == off + p + 4,
                    Err(DecodeError::Truncated) => off + p + 4 > data.len() && final(self).pos
                        == off,
                    Err(DecodeError::NonZeroPadding) => off + p <= data.len() && !(data.subrange(
                        off,
                        off + p,
                    ) =~= zero_pad(off, 4)) && final(self).pos == off,
                    Err(DecodeError::InvalidBoolean) => off + p + 4 <= data.len()
                        && data.subrange(off, off + p) =~= zero_pad(off, 4) && spec_dec_u32(
                        e,
                        data.subrange(off + p, off + p + 4),
                    ) > 1 && final(self).pos == off,
                    Err(_) => false,
                }
            }),
    {
        let saved = self.pos;
        let v = match self.read_u32() {
            Ok(v) => v,
            Err(e) => {
                return Err(e);
            },
        };
        if v == 0 {
            Ok(false)
        } else if v == 1 {
            Ok(true)
        } else {
            self.pos = saved;
            Err(DecodeError::InvalidBoolean)
        }
    }

    /// 16-bit signed integer in the message's byte order; alignment 2.
    pub fn read_i16(&mut self) -> (r: Result<i16, DecodeError>)
        requires
            old(self).wf(),
        ensures
            old(self).same_source(&*final(self)),
            final(self).wf(),
            ({
                let off = old(self).pos as int;
                let p = pad_len(off, 2);
                let e = old(self).endianness;
                let data = old(self).data@;
                match r {
                    Ok(v) => off + p + 2 <= data.len() && data.subrange(off, off + p) =~= zero_pad(
                        off,
                        2,
                    ) && v == spec_u16_to_i16(spec_dec_u16(e, data.subrange(off + p, off + p + 2)))
                        && final(self).pos == off + p + 2,
                    Err(DecodeError::Truncated) => off + p + 2 > data.len() && final(self).pos
                        == off,
                    Err(DecodeError::NonZeroPadding) => off + p <= data.len() && !(data.subrange(
                        off,
                        off + p,
                    ) =~= zero_pad(off, 2)) && final(self).pos == off,
                    Err(_) => false,
                }
            }),
    {
        match self.read_u16() {
            Ok(u) => Ok(u16_to_i16(u)),
            Err(e) => Err(e),
        }
    }

    /// 32-bit signed integer in the message's byte order; alignment 4.
    pub fn read_i32(&mut self) -> (r: Result<i32, DecodeError>)
        requires
            old(self).wf(),
        ensures
            old(self).same_source(&*final(self)),
            final(self).wf(),
            ({
                let off = old(self).pos as int;
                let p = pad_len(off, 4);
                let e = old(self).endianness;
                let data = old(self).data@;
                match r {
                    Ok(v) => off + p + 4 <= data.len() && data.subrange(off, off + p) =~= zero_pad(
                        off,
                        4,
                    ) && v == spec_u32_to_i32(spec_dec_u32(e, data.subrange(off + p, off + p + 4)))
                        && final(self).pos == off + p + 4,
                    Err(DecodeError::Truncated) => off + p + 4 > data.len() && final(self).pos
                        == off,
                    Err(DecodeError::NonZeroPadding) => off + p <= data.len() && !(data.subrange(
                        off,
                        off + p,
                    ) =~= zero_pad(off, 4)) && final(self).pos == off,
                    Err(_) => false,
                }
            }),
    {
        match self.read_u32() {
            Ok(u) => Ok(u32_to_i32(u)),
            Err(e) => Err(e),
        }
    }

    /// 64-bit signed integer in the message's byte order; alignment 8.
    pub fn read_i64(&mut self) -> (r: Result<i64, DecodeError>)
        requires
            old(self).wf(),
        ensures
            old(self).same_source(&*final(self)),
            final(self).wf(),
            ({
                let off = old(self).pos as int;
                let p = pad_len(off, 8);
                let e = old(self).endianness;
                let data = old(self).data@;
                match r {
                    Ok(v) => off + p + 8 <= data.len() && data.subrange(off, off + p) =~= zero_pad(
                        off,
                        8,
                    ) && v == spec_u64_to_i64(spec_dec_u64(e, data.subrange(off + p, off + p + 8)))
                        && final(self).pos == off + p + 8,
                    Err(DecodeError::Truncated) => off + p + 8 > data.len() && final(self).pos
                        == off,
                    Err(DecodeError::NonZeroPadding) => off + p <= data.len() && !(data.subrange(
                        off,
                        off + p,
                    ) =~= zero_pad(off, 8)) && final(self).pos == off,
                    Err(_) => false,
                }
            }),
    {
        match self.read_u64() {
            Ok(u) => Ok(u64_to_i64(u)),
            Err(e) => Err(e),
        }
    }


    /// An array of bytes: the u32 byte length of the array data, then the
    /// data. Mirrors the writer and fails closed on truncation.
    pub fn read_array(&mut self) -> (r: Result<Vec<u8>, DecodeError>)
        requires
            old(self).wf(),
        ensures
            old(self).same_source(&*final(self)),
            final(self).wf(),
            ({
                let off = old(self).pos as int;
                let p = pad_len(off, 4);
                let e = old(self).endianness;
                let data = old(self).data@;
                match r {
                    Ok(v) => off + p + 4 + v@.len() <= data.len() && data.subrange(off, off + p)
                        =~= zero_pad(off, 4) && v@.len() == spec_dec_u32(
                        e,
                        data.subrange(off + p, off + p + 4),
                    ) && v@ =~= data.subrange(off + p + 4, off + p + 4 + v@.len()) && final(self).pos == off + p + 4 + v@.len(),
                    Err(DecodeError::Truncated) => (off + p + 4 > data.len() || off + p + 4
                        + spec_dec_u32(e, data.subrange(off + p, off + p + 4)) > data.len())
                        && final(self).pos == off,
                    Err(DecodeError::NonZeroPadding) => off + p <= data.len() && !(data.subrange(
                        off,
                        off + p,
                    ) =~= zero_pad(off, 4)) && final(self).pos == off,
                    Err(_) => false,
                }
            }),
    {
        let saved = self.pos;
        let n = match self.read_u32() {
            Ok(n) => n,
            Err(err) => {
                return Err(err);
            },
        };
        if (n as usize) > self.data.len() - self.pos {
            self.pos = saved;
            return Err(DecodeError::Truncated);
        }
        let v = self.copy_range(self.pos, n as usize);
        self.pos = self.pos + n as usize;
        Ok(v)
    }

    /// A string: u32 byte-length prefix, UTF-8 bytes, NUL terminator. On
    /// success the consumed bytes are exactly the returned string's wire
    /// form; on failure no string is carried at this position and the
    /// position is unchanged.
    pub fn read_string(&mut self) -> (r: Result<String, DecodeError>)
        requires
            old(self).wf(),
        ensures
            old(self).same_source(&*final(self)),
            final(self).wf(),
            ({
                let off = old(self).pos as int;
                let e = old(self).endianness;
                let data = old(self).data@;
                match r {
                    Ok(s) => string_at(data, off, e, s@) && final(self).pos == off + enc_string_at(
                        off,
                        e,
                        s@,
                    ).len(),
                    Err(_) => final(self).pos == off && (forall|t: Seq<char>|
                        !string_at(data, off, e, t)),
                }
            }),
    {
        let ghost off = self.pos as int;
        let ghost e = self.endianness;
        let ghost data = self.data@;
        let ghost p = pad_len(off, 4);
        proof {
            lemma_pad_len(off, 4);
        }
        let saved = self.pos;
        let n = match self.read_u32() {
            Ok(n) => n,
            Err(err) => {
                proof {
                    assert forall|t: Seq<char>| !string_at(data, off, e, t) by {
                        if string_at(data, off, e, t) {
                            let nt = encode_utf8(t).len() as int;
                            lemma_u32_round_trip(e, nt as u32);
                            let enc = enc_string_at(off, e, t);
                            assert(data.subrange(off, off + p) =~= enc.subrange(0, p));
                            assert(enc.subrange(0, p) =~= zero_pad(off, 4));
                        }
                    }
                }
                return Err(err);
            },
        };
        let avail = self.data.len() - self.pos;
        if avail < 1 || (n as usize) > avail - 1 {
            self.pos = saved;
            proof {
                assert forall|t: Seq<char>| !string_at(data, off, e, t) by {
                    if string_at(data, off, e, t) {
                        let nt = encode_utf8(t).len() as int;
                        lemma_u32_round_trip(e, nt as u32);
                        let enc = enc_string_at(off, e, t);
                        assert(data.subrange(off + p, off + p + 4) =~= enc.subrange(p, p + 4));
                        assert(enc.subrange(p, p + 4) =~= spec_enc_u32(e, nt as u32));
                        lemma_u32_round_trip(e, nt as u32);
                        assert(n == nt);
                    }
                }
            }
            return Err(DecodeError::Truncated);
        }
        let seg = self.copy_range(self.pos, n as usize);
        let term = self.data[self.pos + n as usize];
        if term != 0 {
            self.pos = saved;
            proof {
                assert forall|t: Seq<char>| !string_at(data, off, e, t) by {
                    if string_at(data, off, e, t) {
                        let nt = encode_utf8(t).len() as int;
                        lemma_u32_round_trip(e, nt as u32);
                        let enc = enc_string_at(off, e, t);
                        assert(data.subrange(off + p, off + p + 4) =~= enc.subrange(p, p + 4));
                        assert(enc.subrange(p, p + 4) =~= spec_enc_u32(e, nt as u32));
                        lemma_u32_round_trip(e, nt as u32);
                        assert(n == nt);
                        assert(data[off + p + 4 + nt] == enc[p + 4 + nt]);
                        assert(enc[p + 4 + nt] == 0u8);
                    }
                }
            }
            return Err(DecodeError::MissingNulTerminator);
        }
        match string_from_utf8(seg) {
            Some(s) => {
                self.pos = self.pos + n as usize + 1;
                proof {
                    let nn = n as int;
                    lemma_u32_round_trip(e, n);
                    lemma_u32_dec_enc(e, data.subrange(off + p, off + p + 4));
                    decode_utf8_encode_utf8(data.subrange(off + p + 4, off + p + 4 + nn));
                    assert(encode_utf8(s@) == data.subrange(off + p + 4, off + p + 4 + nn));
                    assert(encode_utf8(s@).len() == nn);
                    let enc = enc_string_at(off, e, s@);
                    assert(enc.len() == p + 4 + nn + 1);
                    assert(spec_enc_u32(e, n) == data.subrange(off + p, off + p + 4));
                    assert(data[off + p + 4 + nn] == 0u8);
                    assert forall|i: int| 0 <= i < enc.len() implies data.subrange(
                        off,
                        off + enc.len(),
                    )[i] == enc[i] by {
                        if i < p {
                            assert(data.subrange(off, off + p)[i] == zero_pad(off, 4)[i]);
                        } else if i < p + 4 {
                            assert(data.subrange(off + p, off + p + 4)[i - p] == spec_enc_u32(
                                e,
                                n,
                            )[i - p]);
                        } else if i < p + 4 + nn {
                            assert(data.subrange(off + p + 4, off + p + 4 + nn)[i - p - 4]
                                == encode_utf8(s@)[i - p - 4]);
                        }
                    }
                    assert(data.subrange(off, off + enc.len()) =~= enc);
                }
                Ok(s)
            },
            None => {
                self.pos = saved;
                proof {
                    assert forall|t: Seq<char>| !string_at(data, off, e, t) by {
                        if string_at(data, off, e, t) {
                            let nt = encode_utf8(t).len() as int;
                            lemma_u32_round_trip(e, nt as u32);
                            let enc = enc_string_at(off, e, t);
                            assert(data.subrange(off + p, off + p + 4) =~= enc.subrange(p, p + 4));
                            assert(enc.subrange(p, p + 4) =~= spec_enc_u32(e, nt as u32));
                            lemma_u32_round_trip(e, nt as u32);
                            assert(n == nt);
                            assert(data.subrange(off + p + 4, off + p + 4 + nt) =~= enc.subrange(
                                p + 4,
                                p + 4 + nt,
                            ));
                            assert(enc.subrange(p + 4, p + 4 + nt) =~= encode_utf8(t));
                            vstd::utf8::encode_utf8_valid_utf8(t);
                        }
                    }
                }
                Err(DecodeError::InvalidUtf8)
            },
        }
    }

    /// Exactly the string form, but the content must be a valid object
    /// path.
    pub fn read_object_path(&mut self) -> (r: Result<ObjectPath, DecodeError>)
        requires
            old(self).wf(),
        ensures
            old(self).same_source(&*final(self)),
            final(self).wf(),
            ({
                let off = old(self).pos as int;
                let e = old(self).endianness;
                let data = old(self).data@;
                match r {
                    Ok(path) => string_at(data, off, e, path@) && valid_object_path(path@) && final(self).pos == off + enc_string_at(off, e, path@).len(),
                    Err(_) => final(self).pos == off && (forall|t: Seq<char>|
                        !(string_at(data, off, e, t) && valid_object_path(t))),
                }
            }),
    {
        let saved = self.pos;
        let s = match self.read_string() {
            Ok(s) => s,
            Err(err) => {
                return Err(err);
            },
        };
        match ObjectPath::from_str(s.as_str()) {
            Ok(path) => Ok(path),
            Err(_) => {
                self.pos = saved;
                proof {
                    let off = old(self).pos as int;
                    let e = old(self).endianness;
                    let data = old(self).data@;
                    assert forall|t: Seq<char>|
                        !(string_at(data, off, e, t) && valid_object_path(t)) by {
                        if string_at(data, off, e, t) {
                            lemma_string_at_unique(data, off, e, t, s@);
                        }
                    }
                }
                Err(DecodeError::InvalidName)
            },
        }
    }

    /// A signature: single-byte length prefix, UTF-8 bytes, NUL terminator;
    /// the content must be a valid signature.
    pub fn read_signature(&mut self) -> (r: Result<Signature, DecodeError>)
        requires
            old(self).wf(),
        ensures
            old(self).same_source(&*final(self)),
            final(self).wf(),
            ({
                let off = old(self).pos as int;
                let data = old(self).data@;
                match r {
                    Ok(sig) => signature_at(data, off, sig@) && final(self).pos == off
                        + enc_signature(sig@).len(),
                    Err(_) => final(self).pos == off && (forall|t: Seq<char>|
                        !signature_at(data, off, t)),
                }
            }),
    {
        let ghost off = self.pos as int;
        let ghost data = self.data@;
        let saved = self.pos;
        let n = match self.read_u8() {
            Ok(n) => n,
            Err(err) => {
                return Err(err);
            },
        };
        let avail = self.data.len() - self.pos;
        if avail < 1 || (n as usize) > avail - 1 {
            self.pos = saved;
            proof {
                assert forall|t: Seq<char>| !signature_at(data, off, t) by {
                    if signature_at(data, off, t) {
                        let enc = enc_signature(t);
                        let nt = encode_utf8(t).len() as int;
                        assert(data[off] == enc[0]);
                        assert(n == nt);
                    }
                }
            }
            return Err(DecodeError::Truncated);
        }
        let seg = self.copy_range(self.pos, n as usize);
        let term = self.data[self.pos + n as usize];
        if term != 0 {
            self.pos = saved;
            proof {
                assert forall|t: Seq<char>| !signature_at(data, off, t) by {
                    if signature_at(data, off, t) {
                        let enc = enc_signature(t);
                        let nt = encode_utf8(t).len() as int;
                        assert(data[off] == enc[0]);
                        assert(n == nt);
                        assert(data[off + 1 + nt] == enc[1 + nt]);
                        assert(enc[1 + nt] == 0u8);
                    }
                }
            }
            return Err(DecodeError::MissingNulTerminator);
        }
        let s = match string_from_utf8(seg) {
            Some(s) => s,
            None => {
                self.pos = saved;
                proof {
                    assert forall|t: Seq<char>| !signature_at(data, off, t) by {
                        if signature_at(data, off, t) {
                            let enc = enc_signature(t);
                            let nt = encode_utf8(t).len() as int;
                            assert(data[off] == enc[0]);
                            assert(n == nt);
                            assert(data.subrange(off + 1, off + 1 + nt) =~= enc.subrange(
                                1,
                                1 + nt,
                            ));
                            assert(enc.subrange(1, 1 + nt) =~= encode_utf8(t));
                            vstd::utf8::encode_utf8_valid_utf8(t);
                        }
                    }
                }
                return Err(DecodeError::InvalidUtf8);
            },
        };
        proof {
            decode_utf8_encode_utf8(data.subrange(off + 1, off + 1 + n));
            assert(encode_utf8(s@) == data.subrange(off + 1, off + 1 + n));
        }
        match Signature::from_str(s.as_str()) {
            Ok(sig) => {
                self.pos = self.pos + n as usize + 1;
                proof {
                    assert(data.subrange(off, off + enc_signature(sig@).len()) =~= enc_signature(
                        sig@,
                    ));
                }
                Ok(sig)
            },
            Err(_) => {
                self.pos = saved;
                proof {
                    assert forall|t: Seq<char>| !signature_at(data, off, t) by {
                        if signature_at(data, off, t) {
                            let enc = enc_signature(t);
                            let nt = encode_utf8(t).len() as int;
                            assert(data[off] == enc[0]);
                            assert(n == nt);
                            assert(data.subrange(off + 1, off + 1 + nt) =~= enc.subrange(
                                1,
                                1 + nt,
                            ));
                            assert(enc.subrange(1, 1 + nt) =~= encode_utf8(t));
                            encode_utf8_decode_utf8(t);
                            assert(t == s@);
                        }
                    }
                }
                Err(DecodeError::InvalidName)
            },
        }
    }
}

} // verus!

//! Marshaling of primitive values into an in-memory message buffer. The
//! byte order is fixed when the writer is constructed and every multi-byte
//! value uses it; each value is preceded by zero padding up to its natural
//! alignment, counted from the start of the buffer.

use crate::type_system::{ObjectPath, Signature};
use crate::wire::{
    enc_boolean_at, enc_i16_at, enc_i32_at, enc_i64_at, enc_signature, enc_string_at, enc_u16_at,
    enc_u32_at, enc_u64_at, i16_to_u16, i32_to_u32, i64_to_u64, lemma_pad_len, lemma_u32_round_trip,
    pad_len, reversed, spec_enc_u32,
    zero_pad, EncodeError, Endianness,
};
use vstd::bytes::{u16_to_le_bytes, u32_to_le_bytes, u64_to_le_bytes};
use vstd::prelude::*;
use vstd::string::StrSliceExecFns;
use vstd::utf8::encode_utf8;

verus! {

use vstd::arithmetic::div_mod::{lemma_add_mod_noop, lemma_small_mod};

/// A value that can marshal itself onto a writer. `wire_bytes` gives the
/// bytes it adds to a buffer of current length `off`; `write_error` says
/// exactly when and why marshaling fails, and a failed write leaves the
/// buffer untouched. The offset enters an encoding only through alignment
/// padding, which `spec_alignment` bounds and the shift law makes precise;
/// an array of the type pads to that alignment before its first element.
pub trait DbusWrite {
    spec fn wire_bytes(&self, off: int, e: Endianness) -> Seq<u8>;

    spec fn write_error(&self) -> Option<EncodeError>;

    /// The natural alignment of the wire form.
    spec fn spec_alignment() -> int;

    fn alignment() -> (a: usize)
        ensures
            a as int == Self::spec_alignment(),
            a == 1 || a == 2 || a == 4 || a == 8,
    ;

    /// Two offsets equal modulo the alignment give the same bytes.
    proof fn lemma_wire_bytes_shift(&self, off1: int, off2: int, e: Endianness)
        requires
            off1 >= 0,
            off2 >= 0,
            off1 % Self::spec_alignment() == off2 % Self::spec_alignment(),
        ensures
            self.wire_bytes(off1, e) == self.wire_bytes(off2, e),
    ;

    fn write(&self, writer: &mut DbusWriter) -> (r: Result<(), EncodeError>)
        ensures
            final(writer).endianness == old(writer).endianness,
            match r {
                Ok(()) => self.write_error() is None && final(writer).buf@ == old(writer).buf@
                    + self.wire_bytes(old(writer).buf@.len() as int, old(writer).endianness),
                Err(e) => Some(e) == self.write_error() && final(writer).buf@ == old(
                    writer,
                ).buf@,
            },
    ;
}

/// The concatenated wire forms of the elements of `a`, the first at
/// absolute offset `off`, each following the one before it.
pub open spec fn elements_bytes<T: DbusWrite>(a: Seq<T>, off: int, e: Endianness) -> Seq<u8>
    decreases a.len(),
{
    if a.len() == 0 {
        Seq::<u8>::empty()
    } else {
        let b = a[0].wire_bytes(off, e);
        b + elements_bytes(a.drop_first(), off + b.len(), e)
    }
}

/// The first element that cannot be marshaled, if any.
pub open spec fn first_element_error<T: DbusWrite>(a: Seq<T>) -> Option<EncodeError>
    decreases a.len(),
{
    if a.len() == 0 {
        None
    } else if a[0].write_error() is Some {
        a[0].write_error()
    } else {
        first_element_error(a.drop_first())
    }
}

/// The wire form of an array at absolute offset `off`: the u32 byte length
/// of the element payload, padding to the element type's alignment, then
/// the elements.
pub open spec fn enc_array_at<T: DbusWrite>(off: int, e: Endianness, a: Seq<T>) -> Seq<u8> {
    let len_end = off + pad_len(off, 4) + 4;
    let start = len_end + pad_len(len_end, T::spec_alignment());
    let payload = elements_bytes(a, start, e);
    zero_pad(off, 4) + spec_enc_u32(e, payload.len() as u32) + zero_pad(
        len_end,
        T::spec_alignment(),
    ) + payload
}

/// Two offsets equal modulo the element alignment give the same element
/// payload: each element shifts by its own law and the lengths agree.
proof fn lemma_elements_bytes_shift<T: DbusWrite>(a: Seq<T>, off1: int, off2: int, e: Endianness)
    requires
        off1 >= 0,
        off2 >= 0,
        T::spec_alignment() >= 1,
        off1 % T::spec_alignment() == off2 % T::spec_alignment(),
    ensures
        elements_bytes(a, off1, e) == elements_bytes(a, off2, e),
    decreases a.len(),
{
    if a.len() > 0 {
        a[0].lemma_wire_bytes_shift(off1, off2, e);
        let b = a[0].wire_bytes(off1, e);
        lemma_add_mod_noop(off1, b.len() as int, T::spec_alignment());
        lemma_add_mod_noop(off2, b.len() as int, T::spec_alignment());
        lemma_elements_bytes_shift(a.drop_first(), off1 + b.len(), off2 + b.len(), e);
    }
}

/// Appending one element to an array appends its wire form at the offset
/// where the payload so far ends.
proof fn lemma_elements_bytes_snoc<T: DbusWrite>(a: Seq<T>, x: T, off: int, e: Endianness)
    ensures
        elements_bytes(a.push(x), off, e) == elements_bytes(a, off, e) + x.wire_bytes(
            off + elements_bytes(a, off, e).len(),
            e,
        ),
    decreases a.len(),
{
    if a.len() == 0 {
        assert(a.push(x).len() == 1);
        assert(a.push(x)[0] == x);
        assert(a.push(x).drop_first() =~= Seq::<T>::empty());
        assert(elements_bytes(a, off, e) == Seq::<u8>::empty());
        let b = x.wire_bytes(off, e);
        assert(elements_bytes(a.push(x), off, e) == b + elements_bytes(
            Seq::<T>::empty(),
            off + b.len(),
            e,
        ));
        assert(b + Seq::<u8>::empty() =~= Seq::<u8>::empty() + b);
    } else {
        let b = a[0].wire_bytes(off, e);
        assert(a.push(x)[0] == a[0]);
        assert(a.push(x).drop_first() =~= a.drop_first().push(x));
        assert(elements_bytes(a.push(x), off, e) == b + elements_bytes(
            a.drop_first().push(x),
            off + b.len(),
            e,
        ));
        lemma_elements_bytes_snoc(a.drop_first(), x, off + b.len(), e);
        let inner = elements_bytes(a.drop_first(), off + b.len(), e);
        let tail = x.wire_bytes(off + b.len() + inner.len(), e);
        assert(elements_bytes(a, off, e) == b + inner);
        assert(off + elements_bytes(a, off, e).len() == off + b.len() + inner.len());
        assert(b + (inner + tail) =~= (b + inner) + tail);
    }
}

proof fn lemma_first_element_error_at<T: DbusWrite>(a: Seq<T>, i: int)
    requires
        0 <= i < a.len(),
        a[i].write_error() is Some,
        forall|j: int| 0 <= j < i ==> (#[trigger] a[j]).write_error() is None,
    ensures
        first_element_error(a) == a[i].write_error(),
    decreases i,
{
    if i > 0 {
        lemma_first_element_error_at(a.drop_first(), i - 1);
    }
}

proof fn lemma_first_element_error_none<T: DbusWrite>(a: Seq<T>)
    requires
        forall|j: int| 0 <= j < a.len() ==> (#[trigger] a[j]).write_error() is None,
    ensures
        first_element_error(a) is None,
    decreases a.len(),
{
    if a.len() > 0 {
        lemma_first_element_error_none(a.drop_first());
    }
}

/// Marshals values into a byte buffer in one fixed byte order.
pub struct DbusWriter {
    pub endianness: Endianness,
    pub buf: Vec<u8>,
}

impl DbusWriter {
    /// A writer with an empty buffer, marshaling in byte order `endianness`.
    pub fn new(endianness: Endianness) -> (w: DbusWriter)
        ensures
            w.endianness == endianness,
            w.buf@ == Seq::<u8>::empty(),
    {
        DbusWriter { endianness, buf: Vec::new() }
    }

    /// The bytes marshaled so far.
    pub fn into_bytes(self) -> (r: Vec<u8>)
        ensures
            r@ == self.buf@,
    {
        self.buf
    }

    /// An `Invalid`-tagged header field can never be marshaled.
    pub fn write_invalid(&self) -> (r: Result<(), EncodeError>)
        ensures
            r == Err::<(), EncodeError>(EncodeError::InvalidHeaderField),
    {
        Err(EncodeError::InvalidHeaderField)
    }

    /// Appends `bs` unchanged.
    #[verifier::loop_isolation(false)]
    pub(crate) fn push_byte_seq(&mut self, bs: &Vec<u8>)
        ensures
            final(self).endianness == old(self).endianness,
            final(self).buf@ == old(self).buf@ + bs@,
    {
        let mut i: usize = 0;
        while i < bs.len()
            invariant
                0 <= i <= bs@.len(),
                self.endianness == old(self).endianness,
                self.buf@ == old(self).buf@ + bs@.subrange(0, i as int),
            decreases bs@.len() - i,
        {
            self.buf.push(bs[i]);
            proof {
                assert(old(self).buf@ + bs@.subrange(0, i as int + 1) =~= (old(self).buf@
                    + bs@.subrange(0, i as int)).push(bs@[i as int]));
            }
            i = i + 1;
        }
        proof {
            assert(bs@.subrange(0, bs@.len() as int) =~= bs@);
        }
    }

    /// Pads the buffer with zero bytes up to the next multiple of `a`.
    #[verifier::loop_isolation(false)]
    pub(crate) fn pad_to(&mut self, a: usize)
        requires
            a == 1 || a == 2 || a == 4 || a == 8,
        ensures
            final(self).endianness == old(self).endianness,
            final(self).buf@ == old(self).buf@ + zero_pad(old(self).buf@.len() as int, a as int),
            final(self).buf@.len() % (a as nat) == 0,
    {
        proof {
            lemma_pad_len(self.buf@.len() as int, a as int);
        }
        let ghost pad = pad_len(old(self).buf@.len() as int, a as int);
        let rem = self.buf.len() % a;
        if rem != 0 {
            let mut k = a - rem;
            assert(k == pad);
            while k > 0
                invariant
                    0 <= k <= pad,
                    self.endianness == old(self).endianness,
                    self.buf@.len() == old(self).buf@.len() + pad - k,
                    self.buf@.subrange(0, old(self).buf@.len() as int) == old(self).buf@,
                    forall|j: int|
                        old(self).buf@.len() <= j < self.buf@.len() ==> self.buf@[j] == 0u8,
                decreases k,
            {
                self.buf.push(0);
                proof {
                    assert(self.buf@.subrange(0, old(self).buf@.len() as int) =~= old(self).buf@);
                }
                k = k - 1;
            }
        }
        proof {
            assert(self.buf@ =~= old(self).buf@ + zero_pad(old(self).buf@.len() as int, a as int));
        }
    }

    /// A single byte; no alignment.
    pub fn write_u8(&mut self, n: u8) -> (r: Result<(), EncodeError>)
        ensures
            r is Ok,
            final(self).endianness == old(self).endianness,
            final(self).buf@ == old(self).buf@.push(n),
    {
        self.buf.push(n);
        Ok(())
    }

    /// 16-bit unsigned integer in the message's byte order; alignment 2.
    pub fn write_u16(&mut self, u: u16) -> (r: Result<(), EncodeError>)
        ensures
            r is Ok,
            final(self).endianness == old(self).endianness,
            final(self).buf@ == old(self).buf@ + enc_u16_at(
                old(self).buf@.len() as int,
                final(self).endianness,
                u,
            ),
    {
        self.pad_to(2);
        let bs = u16_to_le_bytes(u);
        match self.endianness {
            Endianness::Little => self.push_byte_seq(&bs),
            Endianness::Big => {
                let rb = reversed(&bs);
                self.push_byte_seq(&rb);
            },
        }
        proof {
            assert(self.buf@ =~= old(self).buf@ + enc_u16_at(
                old(self).buf@.len() as int,
                self.endianness,
                u,
            ));
        }
        Ok(())
    }

    /// 32-bit unsigned integer in the message's byte order; alignment 4.
    pub fn write_u32(&mut self, u: u32) -> (r: Result<(), EncodeError>)
        ensures
            r is Ok,
            final(self).endianness == old(self).endianness,
            final(self).buf@ == old(self).buf@ + enc_u32_at(
                old(self).buf@.len() as int,
                final(self).endianness,
                u,
            ),
    {
        self.pad_to(4);
        let bs = u32_to_le_bytes(u);
        match self.endianness {
            Endianness::Little => self.push_byte_seq(&bs),
            Endianness::Big => {
                let rb = reversed(&bs);
                self.push_byte_seq(&rb);
            },
        }
        proof {
            assert(self.buf@ =~= old(self).buf@ + enc_u32_at(
                old(self).buf@.len() as int,
                self.endianness,
                u,
            ));
        }
        Ok(())
    }

    /// 64-bit unsigned integer in the message's byte order; alignment 8.
    pub fn write_u64(&mut self, u: u64) -> (r: Result<(), EncodeError>)
        ensures
            r is Ok,
            final(self).endianness == old(self).endianness,
            final(self).buf@ == old(self).buf@ + enc_u64_at(
                old(self).buf@.len() as int,
                final(self).endianness,
                u,
            ),
    {
        self.pad_to(8);
        let bs = u64_to_le_bytes(u);
        match self.endianness {
            Endianness::Little => self.push_byte_seq(&bs),
            Endianness::Big => {
                let rb = reversed(&bs);
                self.push_byte_seq(&rb);
            },
        }
        proof {
            assert(self.buf@ =~= old(self).buf@ + enc_u64_at(
                old(self).buf@.len() as int,
                self.endianness,
                u,
            ));
        }
        Ok(())
    }

    /// A boolean travels as a u32 holding 0 or 1.
    pub fn write_boolean(&mut self, b: bool) -> (r: Result<(), EncodeError>)
        ensures
            r is Ok,
            final(self).endianness == old(self).endianness,
            final(self).buf@ == old(self).buf@ + enc_boolean_at(
                old(self).buf@.len() as int,
                final(self).endianness,
                b,
            ),
    {
        if b {
            self.write_u32(1)
        } else {
            self.write_u32(0)
        }
    }

    /// 16-bit signed integer in the message's byte order; alignment 2.
    pub fn write_i16(&mut self, i: i16) -> (r: Result<(), EncodeError>)
        ensures
            r is Ok,
            final(self).endianness == old(self).endianness,
            final(self).buf@ == old(self).buf@ + enc_i16_at(
                old(self).buf@.len() as int,
                final(self).endianness,
                i,
            ),
    {
        self.write_u16(i16_to_u16(i))
    }

    /// 32-bit signed integer in the message's byte order; alignment 4.
    pub fn write_i32(&mut self, i: i32) -> (r: Result<(), EncodeError>)
        ensures
            r is Ok,
            final(self).endianness == old(self).endianness,
            final(self).buf@ == old(self).buf@ + enc_i32_at(
                old(self).buf@.len() as int,
                final(self).endianness,
                i,
            ),
    {
        self.write_u32(i32_to_u32(i))
    }

    /// 64-bit signed integer in the message's byte order; alignment 8.
    pub fn write_i64(&mut self, i: i64) -> (r: Result<(), EncodeError>)
        ensures
            r is Ok,
            final(self).endianness == old(self).endianness,
            final(self).buf@ == old(self).buf@ + enc_i64_at(
                old(self).buf@.len() as int,
                final(self).endianness,
                i,
            ),
    {
        self.write_u64(i64_to_u64(i))
    }

    /// A string: u32 byte length excluding the terminator, the UTF-8 bytes,
    /// then a NUL terminator; alignment 4. A string whose UTF-8 form does
    /// not fit the length prefix is rejected whole, never truncated.
    pub fn write_string(&mut self, s: &str) -> (r: Result<(), EncodeError>)
        ensures
            final(self).endianness == old(self).endianness,
            match r {
                Ok(()) => encode_utf8(s@).len() <= u32::MAX && final(self).buf@ == old(self).buf@
                    + enc_string_at(old(self).buf@.len() as int, final(self).endianness, s@),
                Err(e) => e == EncodeError::StringTooLong && encode_utf8(s@).len() > u32::MAX
                    && final(self).buf@ == old(self).buf@,
            },
    {
        let bytes = s.as_bytes_vec();
        if bytes.len() > u32::MAX as usize {
            return Err(EncodeError::StringTooLong);
        }
        self.pad_to(4);
        let ghost mid = self.buf@;
        let res = self.write_u32(bytes.len() as u32);
        proof {
            lemma_pad_len(mid.len() as int, 4);
            assert(zero_pad(mid.len() as int, 4) =~= Seq::<u8>::empty());
        }
        self.push_byte_seq(&bytes);
        self.buf.push(0);
        proof {
            assert(self.buf@ =~= old(self).buf@ + enc_string_at(
                old(self).buf@.len() as int,
                self.endianness,
                s@,
            ));
        }
        Ok(())
    }

    /// Exactly the string form, but the content is an object path, whose
    /// grammar is checked where the path is constructed or decoded.
    pub fn write_object_path(&mut self, object_path: ObjectPath) -> (r: Result<(), EncodeError>)
        ensures
            final(self).endianness == old(self).endianness,
            match r {
                Ok(()) => encode_utf8(object_path@).len() <= u32::MAX && final(self).buf@ == old(
                    self,
                ).buf@ + enc_string_at(
                    old(self).buf@.len() as int,
                    final(self).endianness,
                    object_path@,
                ),
                Err(e) => e == EncodeError::StringTooLong && encode_utf8(object_path@).len()
                    > u32::MAX && final(self).buf@ == old(self).buf@,
            },
    {
        self.write_string(object_path.0.as_str())
    }

    /// An array of bytes: a u32 giving the length of the array data in
    /// bytes, then each element consecutively. Byte elements have
    /// alignment 1, so no padding follows the length prefix. An array
    /// whose data does not fit the length prefix is rejected whole.
    pub fn write_array(&mut self, a: &Vec<u8>) -> (r: Result<(), EncodeError>)
        ensures
            final(self).endianness == old(self).endianness,
            match r {
                Ok(()) => a@.len() <= u32::MAX && final(self).buf@ == old(self).buf@ + enc_u32_at(
                    old(self).buf@.len() as int,
                    final(self).endianness,
                    a@.len() as u32,
                ) + a@,
                Err(e) => e == EncodeError::ArrayTooLong && a@.len() > u32::MAX && final(self).buf@
                    == old(self).buf@,
            },
    {
        if a.len() > u32::MAX as usize {
            return Err(EncodeError::ArrayTooLong);
        }
        let _r = self.write_u32(a.len() as u32);
        self.push_byte_seq(a);
        proof {
            assert(self.buf@ =~= old(self).buf@ + enc_u32_at(
                old(self).buf@.len() as int,
                self.endianness,
                a@.len() as u32,
            ) + a@);
        }
        Ok(())
    }

    /// An array of any encodable element type: a u32 giving the byte
    /// length of the encoded element payload, padding to the element
    /// type's alignment, then each element consecutively. The payload is
    /// marshaled before the buffer is touched, so an array with an
    /// unmarshalable element, or whose payload outgrows the length prefix,
    /// is rejected whole, with nothing written.
    #[verifier::loop_isolation(false)]
    pub fn write_array_of<T: DbusWrite>(&mut self, a: &Vec<T>) -> (r: Result<(), EncodeError>)
        ensures
            final(self).endianness == old(self).endianness,
            match r {
                Ok(()) => first_element_error(a@) is None && final(self).buf@ == old(self).buf@
                    + enc_array_at(old(self).buf@.len() as int, old(self).endianness, a@),
                Err(err) => final(self).buf@ == old(self).buf@ && (match first_element_error(a@) {
                    Some(ve) => err == ve,
                    None => err == EncodeError::ArrayTooLong && elements_bytes(
                        a@,
                        0,
                        old(self).endianness,
                    ).len() > u32::MAX,
                }),
            },
    {
        let ghost e = self.endianness;
        let align = T::alignment();
        let mut temp = DbusWriter::new(self.endianness);
        let mut i: usize = 0;
        while i < a.len()
            invariant
                0 <= i <= a@.len(),
                temp.endianness == e,
                forall|j: int| 0 <= j < i ==> (#[trigger] a@[j]).write_error() is None,
                temp.buf@ == elements_bytes(a@.take(i as int), 0, e),
            decreases a@.len() - i,
        {
            let ghost pre = temp.buf@;
            proof {
                assert(a@[i as int] == a@.take(i as int + 1)[i as int]);
            }
            match a[i].write(&mut temp) {
                Ok(()) => {},
                Err(err) => {
                    proof {
                        lemma_first_element_error_at(a@, i as int);
                    }
                    return Err(err);
                },
            }
            proof {
                lemma_elements_bytes_snoc(a@.take(i as int), a@[i as int], 0, e);
                assert(a@.take(i as int + 1) =~= a@.take(i as int).push(a@[i as int]));
                assert(temp.buf@ == elements_bytes(a@.take(i as int + 1), 0, e));
            }
            i = i + 1;
        }
        proof {
            assert(a@.take(a@.len() as int) =~= a@);
            lemma_first_element_error_none(a@);
        }
        if temp.buf.len() > u32::MAX as usize {
            return Err(EncodeError::ArrayTooLong);
        }
        let plen = temp.buf.len() as u32;
        let ghost off0 = self.buf@.len() as int;
        let _r = self.write_u32(plen);
        self.pad_to(align);
        proof {
            // the payload was marshaled from offset zero; its first element
            // sits aligned here, so the bytes are the same
            let al = T::spec_alignment();
            lemma_u32_round_trip(e, plen);
            lemma_pad_len(off0, 4);
            let len_end = off0 + pad_len(off0, 4) + 4;
            lemma_pad_len(len_end, al);
            let start = len_end + pad_len(len_end, al);
            lemma_small_mod(0nat, al as nat);
            assert(self.buf@.len() % (al as nat) == 0);
            assert(start == self.buf@.len());
            lemma_elements_bytes_shift(a@, 0, start, e);
        }
        self.push_byte_seq(&temp.buf);
        proof {
            assert(self.buf@ =~= old(self).buf@ + enc_array_at(off0, e, a@));
        }
        Ok(())
    }

    /// A signature: single-byte length (capping signatures at 255 bytes),
    /// the UTF-8 bytes, then a NUL terminator; no alignment. An oversize
    /// signature is rejected whole, never truncated.
    pub fn write_signature(&mut self, signature: Signature) -> (r: Result<(), EncodeError>)
        ensures
            final(self).endianness == old(self).endianness,
            match r {
                Ok(()) => encode_utf8(signature@).len() <= 255 && final(self).buf@ == old(self).buf@
                    + enc_signature(signature@),
                Err(e) => e == EncodeError::SignatureTooLong && encode_utf8(signature@).len() > 255
                    && final(self).buf@ == old(self).buf@,
            },
    {
        let bytes = signature.0.as_str().as_bytes_vec();
        if bytes.len() > 255 {
            return Err(EncodeError::SignatureTooLong);
        }
        self.buf.push(bytes.len() as u8);
        self.push_byte_seq(&bytes);
        self.buf.push(0);
        proof {
            assert(self.buf@ =~= old(self).buf@ + enc_signature(signature@));
        }
        Ok(())
    }
}

} // verus!

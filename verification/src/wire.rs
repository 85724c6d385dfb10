//! Byte-level model of the wire format: endianness, the encodings of each
//! primitive value, alignment padding, and the round-trip lemmas the codec
//! contracts are stated over. Every multi-byte value whose natural alignment
//! exceeds one byte is preceded by zero padding up to the next multiple of
//! that alignment, counted from the start of the message.

use vstd::bytes::*;
use vstd::prelude::*;
use vstd::utf8::encode_utf8;

verus! {

use vstd::arithmetic::div_mod::{
    lemma_mod_bound,
    lemma_mod_self_0,
    lemma_small_mod,
    lemma_add_mod_noop,
    lemma_mod_twice,
};

/// Byte order of every multi-byte value in one message, fixed for the whole
/// message when it is constructed, from the header's endianness byte
/// (ASCII 'l' or 'B').
#[derive(Clone, Copy, Debug, PartialEq, Eq, Structural)]
pub enum Endianness {
    Little,
    Big,
}

/// The endianness byte that leads every message: ASCII 'l' or 'B'.
pub open spec fn spec_endianness_byte(e: Endianness) -> u8 {
    match e {
        Endianness::Little => 0x6c,
        Endianness::Big => 0x42,
    }
}

pub fn endianness_byte(e: Endianness) -> (b: u8)
    ensures
        b == spec_endianness_byte(e),
{
    match e {
        Endianness::Little => 0x6c,
        Endianness::Big => 0x42,
    }
}

/// Why a value or message cannot be marshaled.
#[derive(Copy, Clone, Debug, PartialEq, Eq, Structural)]
pub enum EncodeError {
    /// An `Invalid`-tagged header field can never be marshaled.
    InvalidHeaderField,
    /// A message of the invalid type can never be marshaled.
    InvalidMessageType,
    /// The message type requires a header field that is absent.
    MissingRequiredField,
    /// A message serial must not be zero.
    ZeroSerial,
    /// The header's body length does not match the body.
    BodyLengthMismatch,
    /// A non-empty body requires a non-empty signature header field.
    BodyWithoutSignature,
    /// A header field carries a string that fails its grammar.
    InvalidName,
    /// A string's UTF-8 form does not fit the u32 length prefix.
    StringTooLong,
    /// A signature's UTF-8 form does not fit the single-byte length prefix.
    SignatureTooLong,
    /// An array's data does not fit the u32 length prefix.
    ArrayTooLong,
    /// The total encoded size exceeds the 2^27-byte maximum.
    SizeExceeded,
}

/// Why a byte sequence cannot be unmarshaled. Decoding fails closed: any
/// mismatch with the expected wire shape rejects the whole message.
#[derive(Copy, Clone, Debug, PartialEq, Eq, Structural)]
pub enum DecodeError {
    /// The input ends before the value it declares.
    Truncated,
    /// Alignment padding holds a byte other than zero.
    NonZeroPadding,
    /// A boolean's 32-bit encoding holds a value other than 0 or 1.
    InvalidBoolean,
    /// String bytes are not valid UTF-8.
    InvalidUtf8,
    /// A string's trailing byte is not the NUL terminator.
    MissingNulTerminator,
    /// The leading byte is neither ASCII 'l' nor 'B'.
    InvalidEndianness,
    /// The message type byte names no known message type.
    InvalidMessageType,
    /// A header field code names no known field, or is the Invalid code.
    InvalidHeaderField,
    /// A message serial must not be zero.
    ZeroSerial,
    /// The message type requires a header field that is absent.
    MissingRequiredField,
    /// A decoded string fails the grammar its position requires.
    InvalidName,
    /// A non-empty body requires a non-empty signature header field.
    BodyWithoutSignature,
    /// The input exceeds the 2^27-byte maximum message size.
    SizeExceeded,
    /// Bytes remain after the declared end of the message.
    TrailingBytes,
}

/// Relies on std's String::from_utf8: it succeeds exactly on valid UTF-8
/// input and returns the string that input encodes.
#[verifier::external_body]
pub(crate) fn string_from_utf8(v: Vec<u8>) -> (r: Option<String>)
    ensures
        match r {
            Some(s) => vstd::utf8::valid_utf8(v@) && s@ == vstd::utf8::decode_utf8(v@),
            None => !vstd::utf8::valid_utf8(v@),
        },
{
    String::from_utf8(v).ok()
}

/// Returns the bytes of `v` in reverse order; big-endian values travel as
/// the reverse of their little-endian form.
#[verifier::loop_isolation(false)]
pub(crate) fn reversed(v: &Vec<u8>) -> (r: Vec<u8>)
    ensures
        r@ == v@.reverse(),
{
    let mut r: Vec<u8> = Vec::new();
    let mut i: usize = v.len();
    while i > 0
        invariant
            0 <= i <= v@.len(),
            r@.len() == v@.len() - i,
            forall|k: int| 0 <= k < r@.len() ==> r@[k] == v@[v@.len() - 1 - k],
        decreases i,
    {
        i = i - 1;
        r.push(v[i]);
    }
    assert(r@ =~= v@.reverse());
    r
}

// --- primitive encodings ---

pub open spec fn spec_enc_u16(e: Endianness, v: u16) -> Seq<u8> {
    match e {
        Endianness::Little => spec_u16_to_le_bytes(v),
        Endianness::Big => spec_u16_to_le_bytes(v).reverse(),
    }
}

pub open spec fn spec_dec_u16(e: Endianness, s: Seq<u8>) -> u16
    recommends
        s.len() == 2,
{
    match e {
        Endianness::Little => spec_u16_from_le_bytes(s),
        Endianness::Big => spec_u16_from_le_bytes(s.reverse()),
    }
}

pub open spec fn spec_enc_u32(e: Endianness, v: u32) -> Seq<u8> {
    match e {
        Endianness::Little => spec_u32_to_le_bytes(v),
        Endianness::Big => spec_u32_to_le_bytes(v).reverse(),
    }
}

pub open spec fn spec_dec_u32(e: Endianness, s: Seq<u8>) -> u32
    recommends
        s.len() == 4,
{
    match e {
        Endianness::Little => spec_u32_from_le_bytes(s),
        Endianness::Big => spec_u32_from_le_bytes(s.reverse()),
    }
}

pub open spec fn spec_enc_u64(e: Endianness, v: u64) -> Seq<u8> {
    match e {
        Endianness::Little => spec_u64_to_le_bytes(v),
        Endianness::Big => spec_u64_to_le_bytes(v).reverse(),
    }
}

pub open spec fn spec_dec_u64(e: Endianness, s: Seq<u8>) -> u64
    recommends
        s.len() == 8,
{
    match e {
        Endianness::Little => spec_u64_from_le_bytes(s),
        Endianness::Big => spec_u64_from_le_bytes(s.reverse()),
    }
}

/// Encoding and decoding a 16-bit value are mutually inverse.
pub proof fn lemma_u16_round_trip(e: Endianness, v: u16)
    ensures
        spec_enc_u16(e, v).len() == 2,
        spec_dec_u16(e, spec_enc_u16(e, v)) == v,
{
    lemma_auto_spec_u16_to_from_le_bytes();
    if e is Big {
        assert(spec_u16_to_le_bytes(v).reverse().reverse() =~= spec_u16_to_le_bytes(v));
    }
}

/// Any 2 bytes are the encoding of the value they decode to.
pub proof fn lemma_u16_dec_enc(e: Endianness, s: Seq<u8>)
    requires
        s.len() == 2,
    ensures
        spec_enc_u16(e, spec_dec_u16(e, s)) == s,
{
    lemma_auto_spec_u16_to_from_le_bytes();
    if e is Big {
        assert(spec_u16_to_le_bytes(spec_u16_from_le_bytes(s.reverse())).reverse() =~= s);
    }
}

/// Encoding and decoding a 32-bit value are mutually inverse.
pub proof fn lemma_u32_round_trip(e: Endianness, v: u32)
    ensures
        spec_enc_u32(e, v).len() == 4,
        spec_dec_u32(e, spec_enc_u32(e, v)) == v,
{
    lemma_auto_spec_u32_to_from_le_bytes();
    if e is Big {
        assert(spec_u32_to_le_bytes(v).reverse().reverse() =~= spec_u32_to_le_bytes(v));
    }
}

/// Any 4 bytes are the encoding of the value they decode to.
pub proof fn lemma_u32_dec_enc(e: Endianness, s: Seq<u8>)
    requires
        s.len() == 4,
    ensures
        spec_enc_u32(e, spec_dec_u32(e, s)) == s,
{
    lemma_auto_spec_u32_to_from_le_bytes();
    if e is Big {
        assert(spec_u32_to_le_bytes(spec_u32_from_le_bytes(s.reverse())).reverse() =~= s);
    }
}

/// Encoding and decoding a 64-bit value are mutually inverse.
pub proof fn lemma_u64_round_trip(e: Endianness, v: u64)
    ensures
        spec_enc_u64(e, v).len() == 8,
        spec_dec_u64(e, spec_enc_u64(e, v)) == v,
{
    lemma_auto_spec_u64_to_from_le_bytes();
    if e is Big {
        assert(spec_u64_to_le_bytes(v).reverse().reverse() =~= spec_u64_to_le_bytes(v));
    }
}

/// Any 8 bytes are the encoding of the value they decode to.
pub proof fn lemma_u64_dec_enc(e: Endianness, s: Seq<u8>)
    requires
        s.len() == 8,
    ensures
        spec_enc_u64(e, spec_dec_u64(e, s)) == s,
{
    lemma_auto_spec_u64_to_from_le_bytes();
    if e is Big {
        assert(spec_u64_to_le_bytes(spec_u64_from_le_bytes(s.reverse())).reverse() =~= s);
    }
}

// --- signed values travel as their two's-complement unsigned counterparts ---

pub open spec fn spec_i16_to_u16(i: i16) -> u16 {
    if i >= 0 {
        i as u16
    } else {
        (i + 0x10000) as u16
    }
}

pub open spec fn spec_u16_to_i16(u: u16) -> i16 {
    if u < 0x8000 {
        u as i16
    } else {
        (u - 0x10000) as i16
    }
}

pub open spec fn spec_i32_to_u32(i: i32) -> u32 {
    if i >= 0 {
        i as u32
    } else {
        (i + 0x1_0000_0000) as u32
    }
}

pub open spec fn spec_u32_to_i32(u: u32) -> i32 {
    if u < 0x8000_0000 {
        u as i32
    } else {
        (u - 0x1_0000_0000) as i32
    }
}

pub open spec fn spec_i64_to_u64(i: i64) -> u64 {
    if i >= 0 {
        i as u64
    } else {
        (i + 0x1_0000_0000_0000_0000) as u64
    }
}

pub open spec fn spec_u64_to_i64(u: u64) -> i64 {
    if u < 0x8000_0000_0000_0000 {
        u as i64
    } else {
        (u - 0x1_0000_0000_0000_0000) as i64
    }
}

/// The signed and unsigned 16-bit forms are mutually inverse: a signed
/// value travels as its two's-complement counterpart and returns intact.
pub proof fn lemma_i16_u16_round_trip(i: i16, u: u16)
    ensures
        spec_u16_to_i16(spec_i16_to_u16(i)) == i,
        spec_i16_to_u16(spec_u16_to_i16(u)) == u,
{
}

/// The signed and unsigned 32-bit forms are mutually inverse.
pub proof fn lemma_i32_u32_round_trip(i: i32, u: u32)
    ensures
        spec_u32_to_i32(spec_i32_to_u32(i)) == i,
        spec_i32_to_u32(spec_u32_to_i32(u)) == u,
{
}

/// The signed and unsigned 64-bit forms are mutually inverse.
pub proof fn lemma_i64_u64_round_trip(i: i64, u: u64)
    ensures
        spec_u64_to_i64(spec_i64_to_u64(i)) == i,
        spec_i64_to_u64(spec_u64_to_i64(u)) == u,
{
}

pub fn i16_to_u16(i: i16) -> (u: u16)
    ensures
        u == spec_i16_to_u16(i),
{
    if i >= 0 {
        i as u16
    } else {
        ((i as i32) + 0x10000) as u16
    }
}

pub fn u16_to_i16(u: u16) -> (i: i16)
    ensures
        i == spec_u16_to_i16(u),
{
    if u < 0x8000 {
        u as i16
    } else {
        ((u as i32) - 0x10000) as i16
    }
}

pub fn i32_to_u32(i: i32) -> (u: u32)
    ensures
        u == spec_i32_to_u32(i),
{
    if i >= 0 {
        i as u32
    } else {
        ((i as i64) + 0x1_0000_0000) as u32
    }
}

pub fn u32_to_i32(u: u32) -> (i: i32)
    ensures
        i == spec_u32_to_i32(u),
{
    if u < 0x8000_0000 {
        u as i32
    } else {
        ((u as i64) - 0x1_0000_0000) as i32
    }
}

pub fn i64_to_u64(i: i64) -> (u: u64)
    ensures
        u == spec_i64_to_u64(i),
{
    if i >= 0 {
        i as u64
    } else {
        let base: u64 = (i - i64::MIN) as u64;
        base + 0x8000_0000_0000_0000
    }
}

pub fn u64_to_i64(u: u64) -> (i: i64)
    ensures
        i == spec_u64_to_i64(u),
{
    if u < 0x8000_0000_0000_0000 {
        u as i64
    } else {
        let base: u64 = u - 0x8000_0000_0000_0000;
        (base as i64) + i64::MIN
    }
}

// --- alignment padding ---

/// Number of zero bytes that bring offset `off` up to the next multiple of
/// the alignment `a`.
pub open spec fn pad_len(off: int, a: int) -> int
    recommends
        off >= 0,
        a >= 1,
{
    (a - off % a) % a
}

/// The zero bytes that pad offset `off` to alignment `a`.
pub open spec fn zero_pad(off: int, a: int) -> Seq<u8>
    recommends
        off >= 0,
        a >= 1,
{
    Seq::new(pad_len(off, a) as nat, |i: int| 0u8)
}

pub proof fn lemma_pad_len(off: int, a: int)
    requires
        off >= 0,
        a >= 1,
    ensures
        0 <= pad_len(off, a) < a,
        (off + pad_len(off, a)) % a == 0,
        off % a == 0 ==> pad_len(off, a) == 0,
        pad_len(off, a) == if off % a == 0 {
            0int
        } else {
            a - off % a
        },
{
    lemma_mod_bound(off, a);
    let m = off % a;
    if m == 0 {
        lemma_mod_self_0(a);
        lemma_add_mod_noop(off, 0, a);
        lemma_mod_twice(off, a);
        assert(pad_len(off, a) == 0);
    } else {
        lemma_small_mod((a - m) as nat, a as nat);
        assert(pad_len(off, a) == a - m);
        lemma_add_mod_noop(off, a - m, a);
        lemma_mod_self_0(a);
        lemma_mod_twice(off, a);
        assert((off + (a - m)) % a == ((m + (a - m)) % a) % a);
        assert((off + pad_len(off, a)) % a == 0);
    }
}

// --- composed encodings: padding followed by the value ---

pub open spec fn enc_u16_at(off: int, e: Endianness, v: u16) -> Seq<u8> {
    zero_pad(off, 2) + spec_enc_u16(e, v)
}

pub open spec fn enc_u32_at(off: int, e: Endianness, v: u32) -> Seq<u8> {
    zero_pad(off, 4) + spec_enc_u32(e, v)
}

pub open spec fn enc_u64_at(off: int, e: Endianness, v: u64) -> Seq<u8> {
    zero_pad(off, 8) + spec_enc_u64(e, v)
}

pub open spec fn enc_boolean_at(off: int, e: Endianness, b: bool) -> Seq<u8> {
    enc_u32_at(
        off,
        e,
        if b {
            1u32
        } else {
            0u32
        },
    )
}

pub open spec fn enc_i16_at(off: int, e: Endianness, i: i16) -> Seq<u8> {
    enc_u16_at(off, e, spec_i16_to_u16(i))
}

pub open spec fn enc_i32_at(off: int, e: Endianness, i: i32) -> Seq<u8> {
    enc_u32_at(off, e, spec_i32_to_u32(i))
}

pub open spec fn enc_i64_at(off: int, e: Endianness, i: i64) -> Seq<u8> {
    enc_u64_at(off, e, spec_i64_to_u64(i))
}

/// Marshaling a u32 immediately after a single byte emits exactly three
/// zero padding bytes before the four value bytes.
pub proof fn lemma_u32_after_one_byte_pads_three(e: Endianness, v: u32)
    ensures
        enc_u32_at(1, e, v) == seq![0u8, 0u8, 0u8] + spec_enc_u32(e, v),
        enc_u32_at(1, e, v).len() == 7,
{
    lemma_pad_len(1, 4);
    assert(pad_len(1, 4) == 3);
    assert(zero_pad(1, 4) =~= seq![0u8, 0u8, 0u8]);
    lemma_u32_round_trip(e, v);
}

/// Wire form of a string: u32 byte length (excluding the terminator), the
/// UTF-8 bytes, then a NUL terminator.
pub open spec fn enc_string(e: Endianness, s: Seq<char>) -> Seq<u8>
    recommends
        encode_utf8(s).len() <= u32::MAX,
{
    spec_enc_u32(e, encode_utf8(s).len() as u32) + encode_utf8(s) + seq![0u8]
}

pub open spec fn enc_string_at(off: int, e: Endianness, s: Seq<char>) -> Seq<u8> {
    zero_pad(off, 4) + enc_string(e, s)
}

/// Wire form of a signature: a single-byte length (capping signatures at
/// 255 bytes), the UTF-8 bytes, then a NUL terminator. No alignment.
pub open spec fn enc_signature(s: Seq<char>) -> Seq<u8>
    recommends
        encode_utf8(s).len() <= 255,
{
    seq![encode_utf8(s).len() as u8] + encode_utf8(s) + seq![0u8]
}

} // verus!

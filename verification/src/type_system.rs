//! The type-signature system: validated object paths and signatures, the
//! serial and unix-fd value types, and the derivation of type-code strings
//! for encodable values. A signature is a string of type codes describing a
//! sequence of complete types; container signatures are derived from the
//! container's declared element type, never from sampling elements.

use crate::dbus_writer::{DbusWrite, DbusWriter};
use crate::wire::{enc_signature, enc_string_at, enc_u32_at, zero_pad, EncodeError, Endianness};
use vstd::prelude::*;
use vstd::string::StrSliceExecFns;
use vstd::utf8::encode_utf8;

verus! {

/// The serial of a message, a non-zero cookie the sender uses to correlate
/// a reply with its call. It may wrap over a connection's lifetime.
#[derive(Clone, Copy, Debug, PartialEq, Eq, Structural)]
pub struct Serial(pub u32);

/// An index into the out-of-band unix file descriptor array accompanying a
/// message.
#[derive(Copy, Clone, Debug, PartialEq, Eq, Structural)]
pub struct UnixFd(pub u32);

// --- object paths ---

/// Characters allowed inside an object path element.
pub open spec fn spec_valid_path_char(c: char) -> bool {
    ('A' <= c && c <= 'Z') || ('a' <= c && c <= 'z') || ('0' <= c && c <= '9') || c == '_'
}

pub fn is_valid_path_char(c: char) -> (r: bool)
    ensures
        r == spec_valid_path_char(c),
{
    ('A' <= c && c <= 'Z') || ('a' <= c && c <= 'z') || ('0' <= c && c <= '9') || c == '_'
}

/// The first character of `s` that no object path may hold, if any.
pub open spec fn first_invalid_path_char(s: Seq<char>) -> Option<char>
    decreases s.len(),
{
    if s.len() == 0 {
        None
    } else if !(spec_valid_path_char(s[0]) || s[0] == '/') {
        Some(s[0])
    } else {
        first_invalid_path_char(s.drop_first())
    }
}

/// A path element is empty: two slashes in a row, or a trailing slash on a
/// path other than the root.
pub open spec fn path_has_empty_element(s: Seq<char>) -> bool {
    (exists|i: int| 1 <= i < s.len() && #[trigger] s[i] == '/' && s[i - 1] == '/') || (s.len() > 1
        && s[s.len() - 1] == '/')
}

/// One violation of the object path grammar.
pub enum ObjectPathViolation {
    Empty,
    NoLeadingSlash,
    BadChar(char),
    EmptyElement,
}

/// The first violation of the object path grammar in `s`, checked in this
/// order: empty string, missing leading slash, an invalid character, then an
/// empty element (a doubled or trailing slash).
pub open spec fn object_path_violation(s: Seq<char>) -> Option<ObjectPathViolation> {
    if s.len() == 0 {
        Some(ObjectPathViolation::Empty)
    } else if s[0] != '/' {
        Some(ObjectPathViolation::NoLeadingSlash)
    } else if first_invalid_path_char(s) is Some {
        Some(ObjectPathViolation::BadChar(first_invalid_path_char(s)->Some_0))
    } else if path_has_empty_element(s) {
        Some(ObjectPathViolation::EmptyElement)
    } else {
        None
    }
}

/// A hierarchical `/elem(/elem)*` identifier; the root path `/` stands
/// alone.
pub open spec fn valid_object_path(s: Seq<char>) -> bool {
    object_path_violation(s) is None
}

proof fn lemma_first_invalid_path_at(s: Seq<char>, i: int)
    requires
        0 <= i < s.len(),
        !(spec_valid_path_char(s[i]) || s[i] == '/'),
        forall|j: int| 0 <= j < i ==> spec_valid_path_char(s[j]) || s[j] == '/',
    ensures
        first_invalid_path_char(s) == Some(s[i]),
    decreases i,
{
    if i > 0 {
        lemma_first_invalid_path_at(s.drop_first(), i - 1);
    }
}

proof fn lemma_first_invalid_path_none(s: Seq<char>)
    requires
        forall|j: int| 0 <= j < s.len() ==> spec_valid_path_char(s[j]) || s[j] == '/',
    ensures
        first_invalid_path_char(s) is None,
    decreases s.len(),
{
    if s.len() > 0 {
        lemma_first_invalid_path_none(s.drop_first());
    }
}

#[derive(Copy, Clone, Debug, PartialEq, Eq)]
pub enum ObjectPathError {
    /// An object path has at least the root slash.
    Empty,
    /// Every object path begins with a slash.
    MustBeginWithSlash,
    /// Elements hold only letters, digits and underscores.
    InvalidCharacter(char),
    /// A doubled or trailing slash leaves an element with no characters.
    ElementsMustContainChars,
}

pub open spec fn to_object_path_error(v: ObjectPathViolation) -> ObjectPathError {
    match v {
        ObjectPathViolation::Empty => ObjectPathError::Empty,
        ObjectPathViolation::NoLeadingSlash => ObjectPathError::MustBeginWithSlash,
        ObjectPathViolation::BadChar(c) => ObjectPathError::InvalidCharacter(c),
        ObjectPathViolation::EmptyElement => ObjectPathError::ElementsMustContainChars,
    }
}

/// A validated object path: slash-separated elements of letters, digits and
/// underscores, rooted at `/`.
#[derive(Clone, Debug, PartialEq, Eq)]
pub struct ObjectPath(pub String);

impl View for ObjectPath {
    type V = Seq<char>;

    open spec fn view(&self) -> Seq<char> {
        self.0@
    }
}

impl ObjectPath {
    /// Parses an object path, reporting the first grammar violation in the
    /// documented order.
    #[verifier::loop_isolation(false)]
    pub fn from_str(s: &str) -> (r: Result<ObjectPath, ObjectPathError>)
        ensures
            match r {
                Ok(path) => path@ == s@ && valid_object_path(s@),
                Err(e) => object_path_violation(s@) matches Some(v) && e == to_object_path_error(
                    v,
                ),
            },
    {
        let n = s.unicode_len();
        if n == 0 {
            return Err(ObjectPathError::Empty);
        }
        if s.get_char(0) != '/' {
            return Err(ObjectPathError::MustBeginWithSlash);
        }
        let mut i: usize = 0;
        while i < n
            invariant
                0 <= i <= n,
                forall|j: int| 0 <= j < i ==> spec_valid_path_char(s@[j]) || s@[j] == '/',
            decreases n - i,
        {
            let c = s.get_char(i);
            if !(is_valid_path_char(c) || c == '/') {
                proof {
                    lemma_first_invalid_path_at(s@, i as int);
                }
                return Err(ObjectPathError::InvalidCharacter(c));
            }
            i = i + 1;
        }
        proof {
            lemma_first_invalid_path_none(s@);
        }
        let mut i: usize = 1;
        while i < n
            invariant
                1 <= i,
                forall|j: int|
                    1 <= j < i && j < n ==> !(#[trigger] s@[j] == '/' && s@[j - 1] == '/'),
            decreases n - i,
        {
            if s.get_char(i) == '/' && s.get_char(i - 1) == '/' {
                return Err(ObjectPathError::ElementsMustContainChars);
            }
            i = i + 1;
        }
        if n > 1 && s.get_char(n - 1) == '/' {
            return Err(ObjectPathError::ElementsMustContainChars);
        }
        assert(!path_has_empty_element(s@));
        Ok(ObjectPath(s.to_owned()))
    }
}

// --- signatures ---

/// Type codes of the basic (non-container) types, the only types that may
/// key a dict entry.
pub open spec fn spec_is_basic_type_code(c: char) -> bool {
    c == 'y' || c == 'b' || c == 'n' || c == 'q' || c == 'i' || c == 'u' || c == 'x' || c == 't'
        || c == 'd' || c == 's' || c == 'o' || c == 'g' || c == 'h'
}

pub fn is_basic_type_code(c: char) -> (r: bool)
    ensures
        r == spec_is_basic_type_code(c),
{
    c == 'y' || c == 'b' || c == 'n' || c == 'q' || c == 'i' || c == 'u' || c == 'x' || c == 't'
        || c == 'd' || c == 's' || c == 'o' || c == 'g' || c == 'h'
}

/// Parses one complete type starting at index `i`, returning the index just
/// past it: a basic code, the variant code `v`, an array `a` followed by its
/// element type, a struct `( ... )` of one or more complete types, or a dict
/// entry `{kv}` whose key is a basic type.
pub open spec fn spec_parse_complete_type(s: Seq<char>, i: int) -> Option<int>
    decreases s.len() - i, 0int,
{
    if i < 0 || i >= s.len() {
        None
    } else if spec_is_basic_type_code(s[i]) || s[i] == 'v' {
        Some(i + 1)
    } else if s[i] == 'a' {
        spec_parse_complete_type(s, i + 1)
    } else if s[i] == '(' {
        spec_parse_struct_fields(s, i + 1)
    } else if s[i] == '{' {
        if i + 1 < s.len() && spec_is_basic_type_code(s[i + 1]) {
            match spec_parse_complete_type(s, i + 2) {
                Some(j) => if j < s.len() && s[j] == '}' {
                    Some(j + 1)
                } else {
                    None
                },
                None => None,
            }
        } else {
            None
        }
    } else {
        None
    }
}

/// Parses one or more complete types followed by the closing parenthesis of
/// a struct, returning the index just past the parenthesis.
pub open spec fn spec_parse_struct_fields(s: Seq<char>, i: int) -> Option<int>
    decreases s.len() - i, 1int,
{
    match spec_parse_complete_type(s, i) {
        Some(j) => if j <= i || j > s.len() {
            None
        } else if j < s.len() && s[j] == ')' {
            Some(j + 1)
        } else {
            spec_parse_struct_fields(s, j)
        },
        None => None,
    }
}

/// Parses zero or more complete types up to the end of the string.
pub open spec fn spec_parse_type_list(s: Seq<char>, i: int) -> Option<int>
    decreases s.len() - i, 1int,
{
    if i == s.len() {
        Some(i)
    } else {
        match spec_parse_complete_type(s, i) {
            Some(j) => if j <= i || j > s.len() {
                None
            } else {
                spec_parse_type_list(s, j)
            },
            None => None,
        }
    }
}

/// A successful parse always consumes at least one character and stays in
/// bounds.
pub proof fn lemma_parse_complete_type_progress(s: Seq<char>, i: int)
    ensures
        spec_parse_complete_type(s, i) matches Some(j) ==> i < j <= s.len(),
    decreases s.len() - i, 0int,
{
    if 0 <= i < s.len() {
        if s[i] == 'a' {
            lemma_parse_complete_type_progress(s, i + 1);
        } else if s[i] == '(' {
            lemma_parse_struct_fields_progress(s, i + 1);
        } else if s[i] == '{' {
            if i + 1 < s.len() && spec_is_basic_type_code(s[i + 1]) {
                lemma_parse_complete_type_progress(s, i + 2);
            }
        }
    }
}

pub proof fn lemma_parse_struct_fields_progress(s: Seq<char>, i: int)
    ensures
        spec_parse_struct_fields(s, i) matches Some(j) ==> i < j <= s.len(),
    decreases s.len() - i, 1int,
{
    lemma_parse_complete_type_progress(s, i);
    match spec_parse_complete_type(s, i) {
        Some(j) => {
            if i < j <= s.len() && !(j < s.len() && s[j] == ')') {
                lemma_parse_struct_fields_progress(s, j);
            }
        },
        None => {},
    }
}

/// A signature is valid when it is at most 255 bytes and is exactly a list
/// of complete types.
pub open spec fn valid_signature(s: Seq<char>) -> bool {
    encode_utf8(s).len() <= 255 && spec_parse_type_list(s, 0) == Some(s.len() as int)
}

#[derive(Copy, Clone, Debug, PartialEq, Eq)]
pub enum SignatureError {
    /// A signature is at most 255 bytes.
    ExceedsMaxSize,
    /// The string is not a list of complete types.
    InvalidTypeCodes,
}

/// A validated signature: a type-code string for a sequence of complete
/// types, at most 255 bytes.
#[derive(Clone, Debug, PartialEq, Eq)]
pub struct Signature(pub String);

impl View for Signature {
    type V = Seq<char>;

    open spec fn view(&self) -> Seq<char> {
        self.0@
    }
}

fn parse_complete_type(s: &str, i: usize) -> (r: Option<usize>)
    requires
        i <= s@.len(),
    ensures
        r matches Some(j) ==> Some(j as int) == spec_parse_complete_type(s@, i as int) && i < j
            <= s@.len(),
        r is None ==> spec_parse_complete_type(s@, i as int) is None,
    decreases s@.len() - i, 0int,
{
    proof {
        lemma_parse_complete_type_progress(s@, i as int);
    }
    if i >= s.unicode_len() {
        return None;
    }
    let c = s.get_char(i);
    if is_basic_type_code(c) || c == 'v' {
        Some(i + 1)
    } else if c == 'a' {
        parse_complete_type(s, i + 1)
    } else if c == '(' {
        parse_struct_fields(s, i + 1)
    } else if c == '{' {
        if i + 1 < s.unicode_len() && is_basic_type_code(s.get_char(i + 1)) {
            match parse_complete_type(s, i + 2) {
                Some(j) => {
                    if j < s.unicode_len() && s.get_char(j) == '}' {
                        Some(j + 1)
                    } else {
                        None
                    }
                },
                None => None,
            }
        } else {
            None
        }
    } else {
        None
    }
}

fn parse_struct_fields(s: &str, i: usize) -> (r: Option<usize>)
    requires
        i <= s@.len(),
    ensures
        r matches Some(j) ==> Some(j as int) == spec_parse_struct_fields(s@, i as int) && i < j
            <= s@.len(),
        r is None ==> spec_parse_struct_fields(s@, i as int) is None,
    decreases s@.len() - i, 1int,
{
    proof {
        lemma_parse_struct_fields_progress(s@, i as int);
        lemma_parse_complete_type_progress(s@, i as int);
    }
    match parse_complete_type(s, i) {
        Some(j) => {
            if j < s.unicode_len() && s.get_char(j) == ')' {
                Some(j + 1)
            } else {
                parse_struct_fields(s, j)
            }
        },
        None => None,
    }
}

#[verifier::loop_isolation(false)]
fn parse_type_list_complete(s: &str) -> (r: bool)
    ensures
        r == (spec_parse_type_list(s@, 0) == Some(s@.len() as int)),
{
    let n = s.unicode_len();
    let mut i: usize = 0;
    while i < n
        invariant
            0 <= i <= n,
            spec_parse_type_list(s@, 0) == spec_parse_type_list(s@, i as int),
        decreases n - i,
    {
        proof {
            lemma_parse_complete_type_progress(s@, i as int);
        }
        match parse_complete_type(s, i) {
            Some(j) => {
                i = j;
            },
            None => {
                return false;
            },
        }
    }
    true
}

impl Signature {
    /// Parses a signature: at most 255 bytes, exactly a list of complete
    /// types. A signature longer than 255 bytes is rejected, never
    /// truncated.
    pub fn from_str(s: &str) -> (r: Result<Signature, SignatureError>)
        ensures
            match r {
                Ok(sig) => sig@ == s@ && valid_signature(s@),
                Err(SignatureError::ExceedsMaxSize) => encode_utf8(s@).len() > 255,
                Err(SignatureError::InvalidTypeCodes) => encode_utf8(s@).len() <= 255
                    && spec_parse_type_list(s@, 0) != Some(s@.len() as int),
            },
    {
        let nbytes = s.as_bytes().len();
        assert(nbytes == encode_utf8(s@).len());
        if nbytes > 255 {
            return Err(SignatureError::ExceedsMaxSize);
        }
        if !parse_type_list_complete(s) {
            return Err(SignatureError::InvalidTypeCodes);
        }
        Ok(Signature(s.to_owned()))
    }

    /// The empty signature, carried by messages with no body.
    pub fn empty() -> (r: Signature)
        ensures
            r@ == Seq::<char>::empty(),
            valid_signature(r@),
    {
        Signature(String::new())
    }
}

impl DbusWrite for Serial {
    /// A serial travels as a u32.
    open spec fn wire_bytes(&self, off: int, e: Endianness) -> Seq<u8> {
        enc_u32_at(off, e, self.0)
    }

    open spec fn write_error(&self) -> Option<EncodeError> {
        None
    }

    open spec fn spec_alignment() -> int {
        4
    }

    fn alignment() -> (a: usize) {
        4
    }

    proof fn lemma_wire_bytes_shift(&self, off1: int, off2: int, e: Endianness) {
        assert(zero_pad(off1, 4) == zero_pad(off2, 4));
        assert(self.wire_bytes(off1, e) =~= self.wire_bytes(off2, e));
    }

    fn write(&self, writer: &mut DbusWriter) -> (r: Result<(), EncodeError>) {
        writer.write_u32(self.0)
    }
}

impl DbusWrite for ObjectPath {
    /// An object path travels in string form; its grammar is checked where
    /// the path is constructed or decoded.
    open spec fn wire_bytes(&self, off: int, e: Endianness) -> Seq<u8> {
        enc_string_at(off, e, self@)
    }

    open spec fn write_error(&self) -> Option<EncodeError> {
        if encode_utf8(self@).len() > u32::MAX {
            Some(EncodeError::StringTooLong)
        } else {
            None
        }
    }

    open spec fn spec_alignment() -> int {
        4
    }

    fn alignment() -> (a: usize) {
        4
    }

    proof fn lemma_wire_bytes_shift(&self, off1: int, off2: int, e: Endianness) {
        assert(zero_pad(off1, 4) == zero_pad(off2, 4));
        assert(self.wire_bytes(off1, e) =~= self.wire_bytes(off2, e));
    }

    fn write(&self, writer: &mut DbusWriter) -> (r: Result<(), EncodeError>) {
        writer.write_string(self.0.as_str())
    }
}

impl DbusWrite for Signature {
    /// A signature travels with a single-byte length prefix.
    open spec fn wire_bytes(&self, off: int, e: Endianness) -> Seq<u8> {
        enc_signature(self@)
    }

    open spec fn write_error(&self) -> Option<EncodeError> {
        if encode_utf8(self@).len() > 255 {
            Some(EncodeError::SignatureTooLong)
        } else {
            None
        }
    }

    open spec fn spec_alignment() -> int {
        1
    }

    fn alignment() -> (a: usize) {
        1
    }

    proof fn lemma_wire_bytes_shift(&self, off1: int, off2: int, e: Endianness) {
    }

    fn write(&self, writer: &mut DbusWriter) -> (r: Result<(), EncodeError>) {
        writer.write_signature(Signature(self.0.clone()))
    }
}


/// A type-code string naming one or more complete types.
pub type TypeCode = String;

/// Marker for the basic (non-container) types, the only types that may act
/// as a dict-entry key. Enforced at construction: a container type can
/// never instantiate a key parameter bounded by this trait.
pub trait BasicType {}

impl BasicType for u8 {}

impl BasicType for bool {}

impl BasicType for i16 {}

impl BasicType for u16 {}

impl BasicType for i32 {}

impl BasicType for u32 {}

impl BasicType for i64 {}

impl BasicType for u64 {}

impl BasicType for UnixFd {}

impl BasicType for String {}

impl BasicType for ObjectPath {}

impl BasicType for Signature {}

/// Every encodable type yields a deterministic type-code signature, fixed
/// by the type's static declaration alone. A container's code is derived
/// from its declared element type, never from sampling elements, so an
/// empty container still knows its signature.
pub trait ToTypeCode {
    /// The type-code string, as a fact about the type.
    spec fn spec_type_code() -> Seq<char>;

    /// The type code from the static declaration, without a value.
    fn static_type_code() -> (r: TypeCode)
        ensures
            r@ == Self::spec_type_code(),
    ;

    /// The type code of this value: the same for every value of the type.
    fn to_type_code(&self) -> (r: TypeCode)
        ensures
            r@ == Self::spec_type_code(),
    ;
}

/// A value of any single complete type, tagged on the wire with that
/// type's own signature.
pub struct Variant;

impl ToTypeCode for u8 {
    open spec fn spec_type_code() -> Seq<char> {
        seq!['y']
    }

    fn static_type_code() -> (r: TypeCode) {
        proof {
            reveal_strlit("y");
        }
        let r = "y".to_owned();
        proof {
            assert(r@ =~= seq!['y']);
        }
        r
    }

    fn to_type_code(&self) -> (r: TypeCode) {
        Self::static_type_code()
    }
}

impl ToTypeCode for bool {
    open spec fn spec_type_code() -> Seq<char> {
        seq!['b']
    }

    fn static_type_code() -> (r: TypeCode) {
        proof {
            reveal_strlit("b");
        }
        let r = "b".to_owned();
        proof {
            assert(r@ =~= seq!['b']);
        }
        r
    }

    fn to_type_code(&self) -> (r: TypeCode) {
        Self::static_type_code()
    }
}

impl ToTypeCode for i16 {
    open spec fn spec_type_code() -> Seq<char> {
        seq!['n']
    }

    fn static_type_code() -> (r: TypeCode) {
        proof {
            reveal_strlit("n");
        }
        let r = "n".to_owned();
        proof {
            assert(r@ =~= seq!['n']);
        }
        r
    }

    fn to_type_code(&self) -> (r: TypeCode) {
        Self::static_type_code()
    }
}

impl ToTypeCode for u16 {
    open spec fn spec_type_code() -> Seq<char> {
        seq!['q']
    }

    fn static_type_code() -> (r: TypeCode) {
        proof {
            reveal_strlit("q");
        }
        let r = "q".to_owned();
        proof {
            assert(r@ =~= seq!['q']);
        }
        r
    }

    fn to_type_code(&self) -> (r: TypeCode) {
        Self::static_type_code()
    }
}

impl ToTypeCode for i32 {
    open spec fn spec_type_code() -> Seq<char> {
        seq!['i']
    }

    fn static_type_code() -> (r: TypeCode) {
        proof {
            reveal_strlit("i");
        }
        let r = "i".to_owned();
        proof {
            assert(r@ =~= seq!['i']);
        }
        r
    }

    fn to_type_code(&self) -> (r: TypeCode) {
        Self::static_type_code()
    }
}

impl ToTypeCode for u32 {
    open spec fn spec_type_code() -> Seq<char> {
        seq!['u']
    }

    fn static_type_code() -> (r: TypeCode) {
        proof {
            reveal_strlit("u");
        }
        let r = "u".to_owned();
        proof {
            assert(r@ =~= seq!['u']);
        }
        r
    }

    fn to_type_code(&self) -> (r: TypeCode) {
        Self::static_type_code()
    }
}

impl ToTypeCode for i64 {
    open spec fn spec_type_code() -> Seq<char> {
        seq!['x']
    }

    fn static_type_code() -> (r: TypeCode) {
        proof {
            reveal_strlit("x");
        }
        let r = "x".to_owned();
        proof {
            assert(r@ =~= seq!['x']);
        }
        r
    }

    fn to_type_code(&self) -> (r: TypeCode) {
        Self::static_type_code()
    }
}

impl ToTypeCode for u64 {
    open spec fn spec_type_code() -> Seq<char> {
        seq!['t']
    }

    fn static_type_code() -> (r: TypeCode) {
        proof {
            reveal_strlit("t");
        }
        let r = "t".to_owned();
        proof {
            assert(r@ =~= seq!['t']);
        }
        r
    }

    fn to_type_code(&self) -> (r: TypeCode) {
        Self::static_type_code()
    }
}

impl ToTypeCode for String {
    open spec fn spec_type_code() -> Seq<char> {
        seq!['s']
    }

    fn static_type_code() -> (r: TypeCode) {
        proof {
            reveal_strlit("s");
        }
        let r = "s".to_owned();
        proof {
            assert(r@ =~= seq!['s']);
        }
        r
    }

    fn to_type_code(&self) -> (r: TypeCode) {
        Self::static_type_code()
    }
}

impl ToTypeCode for &str {
    open spec fn spec_type_code() -> Seq<char> {
        seq!['s']
    }

    fn static_type_code() -> (r: TypeCode) {
        proof {
            reveal_strlit("s");
        }
        let r = "s".to_owned();
        proof {
            assert(r@ =~= seq!['s']);
        }
        r
    }

    fn to_type_code(&self) -> (r: TypeCode) {
        Self::static_type_code()
    }
}

impl ToTypeCode for ObjectPath {
    open spec fn spec_type_code() -> Seq<char> {
        seq!['o']
    }

    fn static_type_code() -> (r: TypeCode) {
        proof {
            reveal_strlit("o");
        }
        let r = "o".to_owned();
        proof {
            assert(r@ =~= seq!['o']);
        }
        r
    }

    fn to_type_code(&self) -> (r: TypeCode) {
        Self::static_type_code()
    }
}

impl ToTypeCode for Signature {
    open spec fn spec_type_code() -> Seq<char> {
        seq!['g']
    }

    fn static_type_code() -> (r: TypeCode) {
        proof {
            reveal_strlit("g");
        }
        let r = "g".to_owned();
        proof {
            assert(r@ =~= seq!['g']);
        }
        r
    }

    fn to_type_code(&self) -> (r: TypeCode) {
        Self::static_type_code()
    }
}

impl ToTypeCode for UnixFd {
    open spec fn spec_type_code() -> Seq<char> {
        seq!['h']
    }

    fn static_type_code() -> (r: TypeCode) {
        proof {
            reveal_strlit("h");
        }
        let r = "h".to_owned();
        proof {
            assert(r@ =~= seq!['h']);
        }
        r
    }

    fn to_type_code(&self) -> (r: TypeCode) {
        Self::static_type_code()
    }
}

impl ToTypeCode for Variant {
    open spec fn spec_type_code() -> Seq<char> {
        seq!['v']
    }

    fn static_type_code() -> (r: TypeCode) {
        proof {
            reveal_strlit("v");
        }
        let r = "v".to_owned();
        proof {
            assert(r@ =~= seq!['v']);
        }
        r
    }

    fn to_type_code(&self) -> (r: TypeCode) {
        Self::static_type_code()
    }
}

/// An array's code is 'a' followed by the element type's code, taken from
/// the element type's declaration: an empty array carries the same
/// signature as a full one.
impl<T: ToTypeCode> ToTypeCode for Vec<T> {
    open spec fn spec_type_code() -> Seq<char> {
        seq!['a'] + T::spec_type_code()
    }

    fn static_type_code() -> (r: TypeCode) {
        proof {
            reveal_strlit("a");
        }
        let mut r = "a".to_owned();
        let elem = T::static_type_code();
        r.append(elem.as_str());
        proof {
            assert(r@ =~= seq!['a'] + T::spec_type_code());
        }
        r
    }

    fn to_type_code(&self) -> (r: TypeCode) {
        Self::static_type_code()
    }
}

/// A dict entry works like a struct in curly braces, and its key must be a
/// basic type; both codes come from the declared key and value types, so an
/// empty map carries the same signature as a full one.
impl<K: BasicType + ToTypeCode + Eq + core::hash::Hash, V: ToTypeCode, S: core::hash::BuildHasher>
    ToTypeCode for std::collections::HashMap<K, V, S> {
    open spec fn spec_type_code() -> Seq<char> {
        seq!['{'] + K::spec_type_code() + V::spec_type_code() + seq!['}']
    }

    fn static_type_code() -> (r: TypeCode) {
        proof {
            reveal_strlit("{");
            reveal_strlit("}");
        }
        let mut r = "{".to_owned();
        let key = K::static_type_code();
        let value = V::static_type_code();
        r.append(key.as_str());
        r.append(value.as_str());
        r.append("}");
        proof {
            assert(r@ =~= seq!['{'] + K::spec_type_code() + V::spec_type_code() + seq!['}']);
        }
        r
    }

    fn to_type_code(&self) -> (r: TypeCode) {
        Self::static_type_code()
    }
}

} // verus!

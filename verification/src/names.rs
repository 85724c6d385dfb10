//! Grammar validation for the names carried in message headers: bus names,
//! interface names, member names and error names. Each kind has its own
//! grammar; the dotted kinds (interface, bus, error) share one engine,
//! configured by whether elements may begin with a digit.

use vstd::prelude::*;
use vstd::string::StrSliceExecFns;
use vstd::utf8::encode_utf8;

verus! {

/// Maximum length in bytes of bus, interface, member and error names.
pub const MAX_NAME_LENGTH: usize = 255;

pub open spec fn spec_is_name_letter(c: char) -> bool {
    ('A' <= c && c <= 'Z') || ('a' <= c && c <= 'z')
}

pub open spec fn spec_is_name_digit(c: char) -> bool {
    '0' <= c && c <= '9'
}

/// Characters allowed in the dotted name grammars (interface, bus and error
/// names): letters, digits, underscore, hyphen and the period separator.
pub open spec fn spec_valid_dotted_name_char(c: char) -> bool {
    spec_is_name_letter(c) || spec_is_name_digit(c) || c == '_' || c == '-' || c == '.'
}

/// Characters allowed in member names: as the dotted kinds, but no period.
pub open spec fn spec_valid_member_name_char(c: char) -> bool {
    spec_is_name_letter(c) || spec_is_name_digit(c) || c == '_' || c == '-'
}

pub fn is_valid_interface_name_char(c: char) -> (r: bool)
    ensures
        r == spec_valid_dotted_name_char(c),
{
    ('A' <= c && c <= 'Z') || ('a' <= c && c <= 'z') || ('0' <= c && c <= '9') || c == '_' || c
        == '-' || c == '.'
}

pub fn is_valid_bus_name_char(c: char) -> (r: bool)
    ensures
        r == spec_valid_dotted_name_char(c),
{
    is_valid_interface_name_char(c)
}

pub fn is_valid_member_name_char(c: char) -> (r: bool)
    ensures
        r == spec_valid_member_name_char(c),
{
    ('A' <= c && c <= 'Z') || ('a' <= c && c <= 'z') || ('0' <= c && c <= '9') || c == '_' || c
        == '-'
}

/// The first character of `s` that the dotted grammars do not allow, if any.
pub open spec fn first_invalid_dotted_char(s: Seq<char>) -> Option<char>
    decreases s.len(),
{
    if s.len() == 0 {
        None
    } else if !spec_valid_dotted_name_char(s[0]) {
        Some(s[0])
    } else {
        first_invalid_dotted_char(s.drop_first())
    }
}

/// Two periods in a row leave an element with no characters.
pub open spec fn has_empty_element(s: Seq<char>) -> bool {
    exists|i: int| 1 <= i < s.len() && #[trigger] s[i] == '.' && s[i - 1] == '.'
}

pub open spec fn has_period(s: Seq<char>) -> bool {
    exists|i: int| 0 <= i < s.len() && #[trigger] s[i] == '.'
}

/// Some element (the start of the name, or the character after a period)
/// begins with a digit.
pub open spec fn has_digit_element_start(s: Seq<char>) -> bool {
    exists|i: int|
        0 <= i < s.len() && #[trigger] spec_is_name_digit(s[i]) && (i == 0 || s[i - 1] == '.')
}

/// One violation of a dotted name grammar. `digit_rule` selects whether
/// elements beginning with a digit are rejected (interface and error names)
/// or accepted (bus names, whose unique-connection form allows them).
pub enum DottedNameViolation {
    TooLong,
    LeadingPeriod,
    BadChar(char),
    EmptyElement,
    NoPeriod,
    DigitElementStart,
}

/// The first violation of the dotted grammar in `s`, checked in this order:
/// byte length over 255, leading period, an invalid character, an empty
/// element, no period at all, then an element beginning with a digit.
pub open spec fn dotted_name_violation(s: Seq<char>, digit_rule: bool) -> Option<
    DottedNameViolation,
> {
    if encode_utf8(s).len() > 255 {
        Some(DottedNameViolation::TooLong)
    } else if s.len() > 0 && s[0] == '.' {
        Some(DottedNameViolation::LeadingPeriod)
    } else if first_invalid_dotted_char(s) is Some {
        Some(DottedNameViolation::BadChar(first_invalid_dotted_char(s)->Some_0))
    } else if has_empty_element(s) {
        Some(DottedNameViolation::EmptyElement)
    } else if !has_period(s) {
        Some(DottedNameViolation::NoPeriod)
    } else if digit_rule && has_digit_element_start(s) {
        Some(DottedNameViolation::DigitElementStart)
    } else {
        None
    }
}

/// A string satisfies a dotted grammar when it has no violation under it.
pub open spec fn valid_dotted_name(s: Seq<char>, digit_rule: bool) -> bool {
    dotted_name_violation(s, digit_rule) is None
}

proof fn lemma_first_invalid_dotted_at(s: Seq<char>, i: int)
    requires
        0 <= i < s.len(),
        !spec_valid_dotted_name_char(s[i]),
        forall|j: int| 0 <= j < i ==> spec_valid_dotted_name_char(s[j]),
    ensures
        first_invalid_dotted_char(s) == Some(s[i]),
    decreases i,
{
    if i > 0 {
        lemma_first_invalid_dotted_at(s.drop_first(), i - 1);
    }
}

proof fn lemma_first_invalid_dotted_none(s: Seq<char>)
    requires
        forall|j: int| 0 <= j < s.len() ==> spec_valid_dotted_name_char(s[j]),
    ensures
        first_invalid_dotted_char(s) is None,
    decreases s.len(),
{
    if s.len() > 0 {
        lemma_first_invalid_dotted_none(s.drop_first());
    }
}

/// Scans `s` against the dotted grammar shared by interface, bus and error
/// names, reporting the first violation in the documented order.
#[verifier::loop_isolation(false)]
fn scan_dotted_name(s: &str, digit_rule: bool) -> (r: Option<DottedNameViolation>)
    ensures
        r == dotted_name_violation(s@, digit_rule),
{
    let nbytes = s.as_bytes().len();
    assert(nbytes == encode_utf8(s@).len());
    if nbytes > MAX_NAME_LENGTH {
        return Some(DottedNameViolation::TooLong);
    }
    let n = s.unicode_len();
    if n > 0 && s.get_char(0) == '.' {
        return Some(DottedNameViolation::LeadingPeriod);
    }
    let mut i: usize = 0;
    while i < n
        invariant
            n == s@.len(),
            0 <= i <= n,
            forall|j: int| 0 <= j < i ==> spec_valid_dotted_name_char(s@[j]),
        decreases n - i,
    {
        let c = s.get_char(i);
        if !is_valid_interface_name_char(c) {
            proof {
                lemma_first_invalid_dotted_at(s@, i as int);
            }
            return Some(DottedNameViolation::BadChar(c));
        }
        i = i + 1;
    }
    proof {
        lemma_first_invalid_dotted_none(s@);
    }
    let mut i: usize = 1;
    while i < n
        invariant
            n == s@.len(),
            1 <= i,
            forall|j: int| 1 <= j < i && j < n ==> !(#[trigger] s@[j] == '.' && s@[j - 1] == '.'),
        decreases n - i,
    {
        if s.get_char(i) == '.' && s.get_char(i - 1) == '.' {
            assert(has_empty_element(s@));
            return Some(DottedNameViolation::EmptyElement);
        }
        i = i + 1;
    }
    assert(!has_empty_element(s@));
    let mut i: usize = 0;
    let mut seen_period = false;
    while i < n
        invariant
            n == s@.len(),
            0 <= i <= n,
            seen_period == exists|j: int| 0 <= j < i && s@[j] == '.',
        decreases n - i,
    {
        if s.get_char(i) == '.' {
            seen_period = true;
        }
        i = i + 1;
    }
    if !seen_period {
        assert(!has_period(s@));
        return Some(DottedNameViolation::NoPeriod);
    }
    if digit_rule {
        let mut i: usize = 0;
        while i < n
            invariant
                n == s@.len(),
                0 <= i <= n,
                forall|j: int|
                    0 <= j < i ==> !(spec_is_name_digit(s@[j]) && (j == 0 || s@[j - 1] == '.')),
            decreases n - i,
        {
            let c = s.get_char(i);
            if c >= '0' && c <= '9' {
                if i == 0 || s.get_char(i - 1) == '.' {
                    assert(has_digit_element_start(s@));
                    return Some(DottedNameViolation::DigitElementStart);
                }
            }
            i = i + 1;
        }
        assert(!has_digit_element_start(s@));
    }
    None
}

/// A string of at most 255 bytes, the only restriction the generic string
/// header values (destination, sender) carry.
#[derive(Clone, Debug, PartialEq, Eq)]
pub struct DbusString(pub String);

impl View for DbusString {
    type V = Seq<char>;

    open spec fn view(&self) -> Seq<char> {
        self.0@
    }
}

#[derive(Copy, Clone, Debug, PartialEq, Eq)]
pub enum DbusStringError {
    /// The name is longer than the 255-byte maximum.
    ExceedsMaxSize,
}

impl DbusString {
    /// Accepts any string of at most 255 bytes.
    pub fn from_str(s: &str) -> (r: Result<DbusString, DbusStringError>)
        ensures
            match r {
                Ok(name) => name@ == s@ && encode_utf8(s@).len() <= 255,
                Err(e) => e == DbusStringError::ExceedsMaxSize && encode_utf8(s@).len() > 255,
            },
    {
        if s.as_bytes().len() > MAX_NAME_LENGTH {
            return Err(DbusStringError::ExceedsMaxSize);
        }
        Ok(DbusString(s.to_owned()))
    }
}

/// A validated interface name: dotted elements of letters, digits,
/// underscores and hyphens, no element empty or beginning with a digit,
/// at least one period, at most 255 bytes.
#[derive(Clone, Debug, PartialEq, Eq)]
pub struct InterfaceName(pub String);

impl View for InterfaceName {
    type V = Seq<char>;

    open spec fn view(&self) -> Seq<char> {
        self.0@
    }
}

#[derive(Copy, Clone, Debug, PartialEq, Eq)]
pub enum InterfaceNameError {
    ExceedsMaxSize,
    ElementsMustContainChars,
    InvalidCharacter(char),
    MustContainPeriod,
    MustNotBeginWithPeriod,
    ElementMustNotBeginWithDigit,
}

pub open spec fn to_interface_name_error(v: DottedNameViolation) -> InterfaceNameError {
    match v {
        DottedNameViolation::TooLong => InterfaceNameError::ExceedsMaxSize,
        DottedNameViolation::LeadingPeriod => InterfaceNameError::MustNotBeginWithPeriod,
        DottedNameViolation::BadChar(c) => InterfaceNameError::InvalidCharacter(c),
        DottedNameViolation::EmptyElement => InterfaceNameError::ElementsMustContainChars,
        DottedNameViolation::NoPeriod => InterfaceNameError::MustContainPeriod,
        DottedNameViolation::DigitElementStart => InterfaceNameError::ElementMustNotBeginWithDigit,
    }
}

impl InterfaceName {
    /// Parses an interface name, reporting the first grammar violation in
    /// the documented order.
    pub fn from_str(s: &str) -> (r: Result<InterfaceName, InterfaceNameError>)
        ensures
            match r {
                Ok(name) => name@ == s@ && valid_dotted_name(s@, true),
                Err(e) => dotted_name_violation(s@, true) matches Some(v) && e
                    == to_interface_name_error(v),
            },
    {
        match scan_dotted_name(s, true) {
            Some(DottedNameViolation::TooLong) => Err(InterfaceNameError::ExceedsMaxSize),
            Some(DottedNameViolation::LeadingPeriod) => Err(
                InterfaceNameError::MustNotBeginWithPeriod,
            ),
            Some(DottedNameViolation::BadChar(c)) => Err(InterfaceNameError::InvalidCharacter(c)),
            Some(DottedNameViolation::EmptyElement) => Err(
                InterfaceNameError::ElementsMustContainChars,
            ),
            Some(DottedNameViolation::NoPeriod) => Err(InterfaceNameError::MustContainPeriod),
            Some(DottedNameViolation::DigitElementStart) => Err(
                InterfaceNameError::ElementMustNotBeginWithDigit,
            ),
            None => Ok(InterfaceName(s.to_owned())),
        }
    }
}

/// A validated bus name. Bus names share the interface grammar except that
/// elements may begin with a digit (unique connection names do); rejecting
/// non-unique names with digit elements is a caller responsibility.
#[derive(Clone, Debug, PartialEq, Eq)]
pub struct BusName(pub String);

impl View for BusName {
    type V = Seq<char>;

    open spec fn view(&self) -> Seq<char> {
        self.0@
    }
}

#[derive(Copy, Clone, Debug, PartialEq, Eq)]
pub enum BusNameError {
    ExceedsMaxSize,
    ElementsMustContainChars,
    InvalidCharacter(char),
    MustContainPeriod,
    MustNotBeginWithPeriod,
}

pub open spec fn to_bus_name_error(v: DottedNameViolation) -> BusNameError {
    match v {
        DottedNameViolation::TooLong => BusNameError::ExceedsMaxSize,
        DottedNameViolation::LeadingPeriod => BusNameError::MustNotBeginWithPeriod,
        DottedNameViolation::BadChar(c) => BusNameError::InvalidCharacter(c),
        DottedNameViolation::EmptyElement => BusNameError::ElementsMustContainChars,
        DottedNameViolation::NoPeriod => BusNameError::MustContainPeriod,
        // unreachable for bus names: the digit rule is off for them, so the
        // grammar never reports this violation; the arm only totalizes the
        // match
        DottedNameViolation::DigitElementStart => BusNameError::MustContainPeriod,
    }
}

impl BusName {
    /// Parses a bus name, reporting the first grammar violation in the
    /// documented order. The digit rule is not applied.
    pub fn from_str(s: &str) -> (r: Result<BusName, BusNameError>)
        ensures
            match r {
                Ok(name) => name@ == s@ && valid_dotted_name(s@, false),
                Err(e) => dotted_name_violation(s@, false) matches Some(v) && e
                    == to_bus_name_error(v),
            },
    {
        match scan_dotted_name(s, false) {
            Some(DottedNameViolation::TooLong) => Err(BusNameError::ExceedsMaxSize),
            Some(DottedNameViolation::LeadingPeriod) => Err(BusNameError::MustNotBeginWithPeriod),
            Some(DottedNameViolation::BadChar(c)) => Err(BusNameError::InvalidCharacter(c)),
            Some(DottedNameViolation::EmptyElement) => Err(BusNameError::ElementsMustContainChars),
            Some(DottedNameViolation::NoPeriod) => Err(BusNameError::MustContainPeriod),
            Some(DottedNameViolation::DigitElementStart) => {
                // the digit rule is off for bus names, so this arm is
                // provably never taken
                proof {
                    assert(false);
                }
                Err(BusNameError::MustContainPeriod)
            },
            None => Ok(BusName(s.to_owned())),
        }
    }
}

/// One violation of the member name grammar.
pub enum MemberNameViolation {
    TooLong,
    LeadingDigit,
    Period,
    BadChar(char),
}

/// The first period or invalid character in `s`, scanning left to right.
pub open spec fn first_member_scan_violation(s: Seq<char>) -> Option<MemberNameViolation>
    decreases s.len(),
{
    if s.len() == 0 {
        None
    } else if s[0] == '.' {
        Some(MemberNameViolation::Period)
    } else if !spec_valid_member_name_char(s[0]) {
        Some(MemberNameViolation::BadChar(s[0]))
    } else {
        first_member_scan_violation(s.drop_first())
    }
}

/// The first violation of the member grammar in `s`, checked in this order:
/// byte length over 255, leading digit, then a left-to-right scan for
/// periods and invalid characters. The grammar puts no lower bound on the
/// length, so the empty name is accepted.
pub open spec fn member_name_violation(s: Seq<char>) -> Option<MemberNameViolation> {
    if encode_utf8(s).len() > 255 {
        Some(MemberNameViolation::TooLong)
    } else if s.len() > 0 && spec_is_name_digit(s[0]) {
        Some(MemberNameViolation::LeadingDigit)
    } else {
        first_member_scan_violation(s)
    }
}

pub open spec fn valid_member_name(s: Seq<char>) -> bool {
    member_name_violation(s) is None
}

proof fn lemma_first_member_scan_at(s: Seq<char>, i: int)
    requires
        0 <= i < s.len(),
        s[i] == '.' || !spec_valid_member_name_char(s[i]),
        forall|j: int| 0 <= j < i ==> s[j] != '.' && spec_valid_member_name_char(s[j]),
    ensures
        first_member_scan_violation(s) == if s[i] == '.' {
            Some(MemberNameViolation::Period)
        } else {
            Some(MemberNameViolation::BadChar(s[i]))
        },
    decreases i,
{
    if i > 0 {
        lemma_first_member_scan_at(s.drop_first(), i - 1);
    }
}

proof fn lemma_first_member_scan_none(s: Seq<char>)
    requires
        forall|j: int| 0 <= j < s.len() ==> s[j] != '.' && spec_valid_member_name_char(s[j]),
    ensures
        first_member_scan_violation(s) is None,
    decreases s.len(),
{
    if s.len() > 0 {
        lemma_first_member_scan_none(s.drop_first());
    }
}

/// A validated member (method or signal) name: letters, digits, underscores
/// and hyphens, no period, not beginning with a digit, at most 255 bytes.
#[derive(Clone, Debug, PartialEq, Eq)]
pub struct MemberName(pub String);

impl View for MemberName {
    type V = Seq<char>;

    open spec fn view(&self) -> Seq<char> {
        self.0@
    }
}

#[derive(Copy, Clone, Debug, PartialEq, Eq)]
pub enum MemberNameError {
    ExceedsMaxSize,
    InvalidCharacter(char),
    MustNotContainPeriod,
    MustNotBeginWithDigit,
    /// Reserved: the member grammar here puts no lower bound on the
    /// length, so no input produces this error.
    MustBeAtLeastOneByte,
}

pub open spec fn to_member_name_error(v: MemberNameViolation) -> MemberNameError {
    match v {
        MemberNameViolation::TooLong => MemberNameError::ExceedsMaxSize,
        MemberNameViolation::LeadingDigit => MemberNameError::MustNotBeginWithDigit,
        MemberNameViolation::Period => MemberNameError::MustNotContainPeriod,
        MemberNameViolation::BadChar(c) => MemberNameError::InvalidCharacter(c),
    }
}

impl MemberName {
    /// Parses a member name, reporting the first grammar violation in the
    /// documented order.
    #[verifier::loop_isolation(false)]
    pub fn from_str(s: &str) -> (r: Result<MemberName, MemberNameError>)
        ensures
            match r {
                Ok(name) => name@ == s@ && valid_member_name(s@),
                Err(e) => member_name_violation(s@) matches Some(v) && e
                    == to_member_name_error(v),
            },
    {
        if s.as_bytes().len() > MAX_NAME_LENGTH {
            return Err(MemberNameError::ExceedsMaxSize);
        }
        let n = s.unicode_len();
        if n > 0 {
            let c0 = s.get_char(0);
            if c0 >= '0' && c0 <= '9' {
                return Err(MemberNameError::MustNotBeginWithDigit);
            }
        }
        let mut i: usize = 0;
        while i < n
            invariant
                n == s@.len(),
                0 <= i <= n,
                forall|j: int|
                    0 <= j < i ==> s@[j] != '.' && spec_valid_member_name_char(s@[j]),
            decreases n - i,
        {
            let c = s.get_char(i);
            if c == '.' {
                proof {
                    lemma_first_member_scan_at(s@, i as int);
                }
                return Err(MemberNameError::MustNotContainPeriod);
            }
            if !is_valid_member_name_char(c) {
                proof {
                    lemma_first_member_scan_at(s@, i as int);
                }
                return Err(MemberNameError::InvalidCharacter(c));
            }
            i = i + 1;
        }
        proof {
            lemma_first_member_scan_none(s@);
        }
        Ok(MemberName(s.to_owned()))
    }
}

/// A validated error name. Error names use exactly the interface grammar;
/// each violation maps to the corresponding error-name variant.
#[derive(Clone, Debug, PartialEq, Eq)]
pub struct ErrorName(pub String);

impl View for ErrorName {
    type V = Seq<char>;

    open spec fn view(&self) -> Seq<char> {
        self.0@
    }
}

#[derive(Copy, Clone, Debug, PartialEq, Eq)]
pub enum ErrorNameError {
    ExceedsMaxSize,
    ElementsMustContainChars,
    InvalidCharacter(char),
    MustContainPeriod,
    MustNotBeginWithPeriod,
    ElementMustNotBeginWithDigit,
}

pub open spec fn to_error_name_error(v: DottedNameViolation) -> ErrorNameError {
    match v {
        DottedNameViolation::TooLong => ErrorNameError::ExceedsMaxSize,
        DottedNameViolation::LeadingPeriod => ErrorNameError::MustNotBeginWithPeriod,
        DottedNameViolation::BadChar(c) => ErrorNameError::InvalidCharacter(c),
        DottedNameViolation::EmptyElement => ErrorNameError::ElementsMustContainChars,
        DottedNameViolation::NoPeriod => ErrorNameError::MustContainPeriod,
        DottedNameViolation::DigitElementStart => ErrorNameError::ElementMustNotBeginWithDigit,
    }
}

impl ErrorName {
    /// Parses an error name with the interface grammar, mapping each
    /// violation to the corresponding error-name variant.
    pub fn from_str(s: &str) -> (r: Result<ErrorName, ErrorNameError>)
        ensures
            match r {
                Ok(name) => name@ == s@ && valid_dotted_name(s@, true),
                Err(e) => dotted_name_violation(s@, true) matches Some(v) && e
                    == to_error_name_error(v),
            },
    {
        match InterfaceName::from_str(s) {
            Ok(iface) => Ok(ErrorName(iface.0)),
            Err(InterfaceNameError::ExceedsMaxSize) => Err(ErrorNameError::ExceedsMaxSize),
            Err(InterfaceNameError::ElementsMustContainChars) => Err(
                ErrorNameError::ElementsMustContainChars,
            ),
            Err(InterfaceNameError::InvalidCharacter(c)) => Err(
                ErrorNameError::InvalidCharacter(c),
            ),
            Err(InterfaceNameError::MustContainPeriod) => Err(ErrorNameError::MustContainPeriod),
            Err(InterfaceNameError::MustNotBeginWithPeriod) => Err(
                ErrorNameError::MustNotBeginWithPeriod,
            ),
            Err(InterfaceNameError::ElementMustNotBeginWithDigit) => Err(
                ErrorNameError::ElementMustNotBeginWithDigit,
            ),
        }
    }
}

} // verus!

//! The SASL-style authentication handshake that precedes message framing:
//! a line-oriented command/response state machine, independent of
//! endianness, plus the hex codec for DATA payloads. Mechanism-specific
//! cryptography (cookie digests, credential checks) is an external
//! collaborator; this component decides only states and replies.

use crate::wire::string_from_utf8;
use vstd::prelude::*;
use vstd::string::StrSliceExecFns;
use vstd::utf8::{encode_utf8, encode_utf8_decode_utf8, is_ascii_chars_encode_utf8};

verus! {

/// The authentication phases of a connection, in the order they are
/// reached. `Begun` is terminal: the transport then carries framed
/// messages.
#[derive(Copy, Clone, Debug, PartialEq, Eq, Structural)]
pub enum AuthState {
    Idle,
    Authenticating,
    Authenticated,
    Begun,
}

/// The fixed set of supported mechanisms.
#[derive(Copy, Clone, Debug, PartialEq, Eq, Structural)]
pub enum AuthMechanism {
    /// Credentials passed out-of-band, as over a unix socket.
    External,
    /// The cookie challenge-response mechanism; the digest itself is an
    /// external collaborator.
    DbusCookieSha1,
    /// No authentication at all; a message bus must reject it.
    Anonymous,
}

/// One line of the handshake, from either side, as the state machine sees
/// it. Payloads (hex data, the server's GUID) do not influence transitions
/// and are carried outside the machine.
#[derive(Copy, Clone, Debug, PartialEq, Eq, Structural)]
pub enum AuthCommand {
    /// Client AUTH, with no mechanism (a request to list mechanisms) or
    /// with one.
    Auth(Option<AuthMechanism>),
    /// Client CANCEL: abort the exchange.
    Cancel,
    /// Client BEGIN: start message framing. The server sends no reply.
    Begin,
    /// A DATA line from either side; its content belongs to the mechanism.
    Data,
    /// Client NEGOTIATE_UNIX_FD.
    NegotiateUnixFd,
    /// Server OK: the client is authenticated.
    ServerOk,
    /// Server REJECTED: the exchange failed or was aborted.
    ServerRejected,
}

/// A reply the server owes in response to a command. REJECTED lines list
/// the supported mechanisms, from [`DBusProtocol::supported_mechanisms`].
#[derive(Copy, Clone, Debug, PartialEq, Eq, Structural)]
pub enum AuthReply {
    Rejected,
    AgreeUnixFd,
    Error,
}

/// A command that the protocol cannot accept.
#[derive(Copy, Clone, Debug, PartialEq, Eq, Structural)]
pub enum ProtocolError {
    /// The command is not legal in the current state.
    OutOfSequence,
    /// A DATA payload is not well-formed hex.
    InvalidHexData,
}

/// The server's first response to AUTH naming a mechanism: ANONYMOUS is
/// rejected in bus mode; the cookie mechanism opens with a DATA challenge;
/// the others authenticate at once.
#[derive(Copy, Clone, Debug, PartialEq, Eq, Structural)]
pub enum AuthResponse {
    Error,
    Data,
    Okay,
    Rejected,
}

/// The server's response to AUTH with no arguments: REJECTED, listing the
/// mechanisms it understands, or an error.
#[derive(Copy, Clone, Debug, PartialEq, Eq, Structural)]
pub enum AuthListResponse {
    Error,
    Rejected,
}

/// The authentication state machine of one connection, driven with one
/// command at a time by an external connection manager.
pub struct DBusProtocol {
    /// The phase the handshake has reached.
    pub state: AuthState,
    /// True for a message-bus server, which must reject ANONYMOUS; a
    /// direct peer connection may accept it.
    pub bus_mode: bool,
    /// Whether the server agrees to unix file descriptor passing.
    pub unix_fd_support: bool,
}

/// The transition relation: given a phase, the policy flags and one
/// command, the next phase and the reply the server owes, or the error for
/// a command out of sequence.
pub open spec fn spec_submit(
    st: AuthState,
    bus_mode: bool,
    unix_fd_support: bool,
    cmd: AuthCommand,
) -> Result<(AuthState, Option<AuthReply>), ProtocolError> {
    match (st, cmd) {
        (AuthState::Idle, AuthCommand::Auth(None)) => Ok(
            (AuthState::Authenticating, Some(AuthReply::Rejected)),
        ),
        (AuthState::Idle, AuthCommand::Auth(Some(m))) => if bus_mode && m
            == AuthMechanism::Anonymous {
            Ok((AuthState::Authenticating, Some(AuthReply::Rejected)))
        } else {
            Ok((AuthState::Authenticating, None))
        },
        (AuthState::Authenticating, AuthCommand::Data) => Ok((AuthState::Authenticating, None)),
        (AuthState::Authenticating, AuthCommand::ServerOk) => Ok(
            (AuthState::Authenticated, None),
        ),
        (AuthState::Authenticating, AuthCommand::ServerRejected) => Ok((AuthState::Idle, None)),
        (AuthState::Idle, AuthCommand::Cancel) => Ok((AuthState::Idle, Some(AuthReply::Rejected))),
        (AuthState::Authenticating, AuthCommand::Cancel) => Ok(
            (AuthState::Idle, Some(AuthReply::Rejected)),
        ),
        (AuthState::Authenticated, AuthCommand::Cancel) => Ok(
            (AuthState::Idle, Some(AuthReply::Rejected)),
        ),
        (AuthState::Authenticated, AuthCommand::NegotiateUnixFd) => Ok(
            (
                AuthState::Authenticated,
                Some(
                    if unix_fd_support {
                        AuthReply::AgreeUnixFd
                    } else {
                        AuthReply::Error
                    },
                ),
            ),
        ),
        (AuthState::Authenticated, AuthCommand::Begin) => Ok((AuthState::Begun, None)),
        _ => Err(ProtocolError::OutOfSequence),
    }
}

/// The server's first response to AUTH naming `mechanism`, under the
/// ANONYMOUS policy `bus_mode`.
pub open spec fn spec_auth_response(bus_mode: bool, mechanism: AuthMechanism) -> AuthResponse {
    match mechanism {
        AuthMechanism::External => AuthResponse::Okay,
        AuthMechanism::DbusCookieSha1 => AuthResponse::Data,
        AuthMechanism::Anonymous => if bus_mode {
            AuthResponse::Rejected
        } else {
            AuthResponse::Okay
        },
    }
}

impl DBusProtocol {
    /// A fresh connection: idle, with the given policy flags.
    pub fn new(bus_mode: bool, unix_fd_support: bool) -> (r: DBusProtocol)
        ensures
            r.state == AuthState::Idle,
            r.bus_mode == bus_mode,
            r.unix_fd_support == unix_fd_support,
    {
        DBusProtocol { state: AuthState::Idle, bus_mode, unix_fd_support }
    }

    /// The fixed set of mechanisms a REJECTED reply lists.
    pub fn supported_mechanisms() -> (r: Vec<AuthMechanism>)
        ensures
            r@ == seq![
                AuthMechanism::External,
                AuthMechanism::DbusCookieSha1,
                AuthMechanism::Anonymous,
            ],
    {
        let mut v: Vec<AuthMechanism> = Vec::new();
        v.push(AuthMechanism::External);
        v.push(AuthMechanism::DbusCookieSha1);
        v.push(AuthMechanism::Anonymous);
        proof {
            assert(v@ =~= seq![
                AuthMechanism::External,
                AuthMechanism::DbusCookieSha1,
                AuthMechanism::Anonymous,
            ]);
        }
        v
    }

    /// Feeds one command through the state machine, returning the reply
    /// the server owes, and moving to the next state exactly as the
    /// transition relation says. A command out of sequence changes
    /// nothing.
    pub fn submit(&mut self, cmd: AuthCommand) -> (r: Result<Option<AuthReply>, ProtocolError>)
        ensures
            final(self).bus_mode == old(self).bus_mode,
            final(self).unix_fd_support == old(self).unix_fd_support,
            match spec_submit(old(self).state, old(self).bus_mode, old(self).unix_fd_support, cmd) {
                Ok((st, reply)) => r == Ok::<Option<AuthReply>, ProtocolError>(reply) && final(self).state == st,
                Err(e) => r == Err::<Option<AuthReply>, ProtocolError>(e) && final(self).state
                    == old(self).state,
            },
    {
        match (self.state, cmd) {
            (AuthState::Idle, AuthCommand::Auth(None)) => {
                self.state = AuthState::Authenticating;
                Ok(Some(AuthReply::Rejected))
            },
            (AuthState::Idle, AuthCommand::Auth(Some(m))) => {
                self.state = AuthState::Authenticating;
                if self.bus_mode && m == AuthMechanism::Anonymous {
                    Ok(Some(AuthReply::Rejected))
                } else {
                    Ok(None)
                }
            },
            (AuthState::Authenticating, AuthCommand::Data) => Ok(None),
            (AuthState::Authenticating, AuthCommand::ServerOk) => {
                self.state = AuthState::Authenticated;
                Ok(None)
            },
            (AuthState::Authenticating, AuthCommand::ServerRejected) => {
                self.state = AuthState::Idle;
                Ok(None)
            },
            (AuthState::Idle, AuthCommand::Cancel) => {
                self.state = AuthState::Idle;
                Ok(Some(AuthReply::Rejected))
            },
            (AuthState::Authenticating, AuthCommand::Cancel) => {
                self.state = AuthState::Idle;
                Ok(Some(AuthReply::Rejected))
            },
            (AuthState::Authenticated, AuthCommand::Cancel) => {
                self.state = AuthState::Idle;
                Ok(Some(AuthReply::Rejected))
            },
            (AuthState::Authenticated, AuthCommand::NegotiateUnixFd) => {
                if self.unix_fd_support {
                    Ok(Some(AuthReply::AgreeUnixFd))
                } else {
                    Ok(Some(AuthReply::Error))
                }
            },
            (AuthState::Authenticated, AuthCommand::Begin) => {
                self.state = AuthState::Begun;
                Ok(None)
            },
            _ => Err(ProtocolError::OutOfSequence),
        }
    }

    /// The server's handling of AUTH naming a mechanism: from the idle
    /// state the handshake enters the authenticating phase and the result
    /// mirrors the server's first reply for that mechanism; a subsequent
    /// server OK moves the machine on to authenticated, a REJECTED back to
    /// idle (both through `submit`). Anywhere but idle the command is out
    /// of sequence, answered with an error, and nothing moves.
    pub fn auth(&mut self, mechanism: AuthMechanism) -> (r: AuthResponse)
        ensures
            final(self).bus_mode == old(self).bus_mode,
            final(self).unix_fd_support == old(self).unix_fd_support,
            old(self).state == AuthState::Idle ==> r == spec_auth_response(
                old(self).bus_mode,
                mechanism,
            ) && final(self).state == AuthState::Authenticating,
            old(self).state != AuthState::Idle ==> r == AuthResponse::Error && final(self).state
                == old(self).state,
    {
        match self.state {
            AuthState::Idle => {
                self.state = AuthState::Authenticating;
                match mechanism {
                    AuthMechanism::External => AuthResponse::Okay,
                    AuthMechanism::DbusCookieSha1 => AuthResponse::Data,
                    AuthMechanism::Anonymous => {
                        if self.bus_mode {
                            AuthResponse::Rejected
                        } else {
                            AuthResponse::Okay
                        }
                    },
                }
            },
            _ => AuthResponse::Error,
        }
    }

    /// AUTH with no arguments is a request to list mechanisms: from the
    /// idle state the server responds with REJECTED naming the mechanisms
    /// it understands and the handshake is left authenticating. Anywhere
    /// but idle the command is out of sequence, answered with an error,
    /// and nothing moves.
    pub fn list_auth(&mut self) -> (r: AuthListResponse)
        ensures
            final(self).bus_mode == old(self).bus_mode,
            final(self).unix_fd_support == old(self).unix_fd_support,
            old(self).state == AuthState::Idle ==> r == AuthListResponse::Rejected && final(self).state == AuthState::Authenticating,
            old(self).state != AuthState::Idle ==> r == AuthListResponse::Error && final(self).state == old(self).state,
    {
        match self.state {
            AuthState::Idle => {
                self.state = AuthState::Authenticating;
                AuthListResponse::Rejected
            },
            _ => AuthListResponse::Error,
        }
    }
}

// --- the hex codec for DATA payloads ---

/// The lower-case hex digit for a value below 16.
pub open spec fn spec_hex_digit(v: u8) -> char
    recommends
        v < 16,
{
    if v < 10 {
        (48 + v) as char
    } else {
        (87 + v) as char
    }
}

/// The hex form of a byte sequence: two lower-case digits per byte, high
/// nibble first.
pub open spec fn spec_hex_encode(bytes: Seq<u8>) -> Seq<char> {
    Seq::new(
        bytes.len() * 2,
        |i: int|
            if i % 2 == 0 {
                spec_hex_digit(bytes[i / 2] / 16)
            } else {
                spec_hex_digit(bytes[i / 2] % 16)
            },
    )
}

pub open spec fn spec_is_hex_digit(c: char) -> bool {
    ('0' <= c && c <= '9') || ('a' <= c && c <= 'f') || ('A' <= c && c <= 'F')
}

/// The value of one hex digit; both cases are accepted on decode.
pub open spec fn spec_hex_val(c: char) -> u8
    recommends
        spec_is_hex_digit(c),
{
    if '0' <= c && c <= '9' {
        ((c as u8) - 48) as u8
    } else if 'a' <= c && c <= 'f' {
        ((c as u8) - 87) as u8
    } else {
        ((c as u8) - 55) as u8
    }
}

/// True when `s` is a well-formed hex payload: even length, hex digits
/// only.
pub open spec fn valid_hex(s: Seq<char>) -> bool {
    s.len() % 2 == 0 && (forall|i: int| 0 <= i < s.len() ==> spec_is_hex_digit(#[trigger] s[i]))
}

/// The bytes a well-formed hex payload carries.
pub open spec fn spec_hex_decode(s: Seq<char>) -> Seq<u8>
    recommends
        valid_hex(s),
{
    Seq::new((s.len() / 2) as nat, |i: int| (spec_hex_val(s[2 * i]) * 16 + spec_hex_val(s[2 * i + 1])) as u8)
}

/// Hex encoding loses nothing: decoding an encoded payload returns the
/// original bytes, and what hex_encode emits is always well-formed hex.
pub proof fn lemma_hex_round_trip(bytes: Seq<u8>)
    ensures
        valid_hex(spec_hex_encode(bytes)),
        spec_hex_decode(spec_hex_encode(bytes)) == bytes,
{
    let s = spec_hex_encode(bytes);
    assert forall|i: int| 0 <= i < s.len() implies spec_is_hex_digit(#[trigger] s[i]) by {
        let b = bytes[i / 2];
        assert(b / 16 < 16 && b % 16 < 16);
    }
    assert forall|i: int| 0 <= i < bytes.len() implies spec_hex_decode(s)[i] == bytes[i] by {
        let b = bytes[i];
        assert(s[2 * i] == spec_hex_digit(b / 16));
        assert(s[2 * i + 1] == spec_hex_digit(b % 16));
        assert(spec_hex_val(spec_hex_digit(b / 16)) == b / 16);
        assert(spec_hex_val(spec_hex_digit(b % 16)) == b % 16);
        assert((b / 16) * 16 + b % 16 == b);
    }
    assert(spec_hex_decode(s) =~= bytes);
}

fn hex_digit(v: u8) -> (c: u8)
    requires
        v < 16,
    ensures
        c == spec_hex_digit(v) as u8,
        spec_hex_digit(v) as u32 == c as u32,
        c < 128,
{
    if v < 10 {
        48 + v
    } else {
        87 + v
    }
}

/// Encodes a DATA payload as lower-case hex, two digits per byte.
#[verifier::loop_isolation(false)]
pub fn hex_encode(bytes: &Vec<u8>) -> (r: String)
    ensures
        r@ == spec_hex_encode(bytes@),
{
    let ghost target = spec_hex_encode(bytes@);
    let mut out: Vec<u8> = Vec::new();
    let mut i: usize = 0;
    while i < bytes.len()
        invariant
            0 <= i <= bytes@.len(),
            out@.len() == 2 * i,
            forall|k: int| 0 <= k < out@.len() ==> out@[k] == target[k] as u8 && out@[k] < 128,
        decreases bytes@.len() - i,
    {
        let b = bytes[i];
        let hi = hex_digit(b / 16);
        let lo = hex_digit(b % 16);
        out.push(hi);
        out.push(lo);
        i = i + 1;
    }
    proof {
        let chars = Seq::new(out@.len() as nat, |k: int| out@[k] as char);
        assert forall|k: int| 0 <= k < chars.len() implies '\0' <= #[trigger] chars[k]
            <= '\u{7f}' by {
            assert(out@[k] < 128);
        }
        is_ascii_chars_encode_utf8(chars);
        assert(encode_utf8(chars) =~= out@);
        vstd::utf8::encode_utf8_valid_utf8(chars);
        encode_utf8_decode_utf8(chars);
        assert(chars =~= target);
    }
    match string_from_utf8(out) {
        Some(s) => s,
        None => {
            proof {
                assert(false);
            }
            String::new()
        },
    }
}

fn hex_val(c: char) -> (r: Option<u8>)
    ensures
        match r {
            Some(v) => spec_is_hex_digit(c) && v == spec_hex_val(c) && v < 16,
            None => !spec_is_hex_digit(c),
        },
{
    if c >= '0' && c <= '9' {
        Some((c as u32) as u8 - 48)
    } else if c >= 'a' && c <= 'f' {
        Some((c as u32) as u8 - 87)
    } else if c >= 'A' && c <= 'F' {
        Some((c as u32) as u8 - 55)
    } else {
        None
    }
}

/// Decodes a hex DATA payload; a payload of odd length or with a character
/// that is no hex digit is rejected.
#[verifier::loop_isolation(false)]
pub fn hex_decode(s: &str) -> (r: Result<Vec<u8>, ProtocolError>)
    ensures
        match r {
            Ok(v) => valid_hex(s@) && v@ == spec_hex_decode(s@),
            Err(e) => e == ProtocolError::InvalidHexData && !valid_hex(s@),
        },
{
    let n = s.unicode_len();
    if n % 2 != 0 {
        return Err(ProtocolError::InvalidHexData);
    }
    let mut out: Vec<u8> = Vec::new();
    let mut i: usize = 0;
    while i < n
        invariant
            0 <= i <= n,
            i % 2 == 0,
            n == s@.len(),
            out@.len() == i / 2,
            forall|j: int| 0 <= j < i ==> spec_is_hex_digit(#[trigger] s@[j]),
            forall|k: int|
                0 <= k < out@.len() ==> out@[k] == (spec_hex_val(s@[2 * k]) * 16 + spec_hex_val(
                    s@[2 * k + 1],
                )) as u8,
        decreases n - i,
    {
        let hi = match hex_val(s.get_char(i)) {
            Some(v) => v,
            None => {
                return Err(ProtocolError::InvalidHexData);
            },
        };
        let lo = match hex_val(s.get_char(i + 1)) {
            Some(v) => v,
            None => {
                return Err(ProtocolError::InvalidHexData);
            },
        };
        out.push(hi * 16 + lo);
        i = i + 2;
    }
    proof {
        assert(out@ =~= spec_hex_decode(s@));
    }
    Ok(out)
}

} // verus!

//! The handshake frame: the first message of a connection, decoded from a
//! window of bytes that was peeked from the socket and not consumed.
//!
//! A frame is a variable-length integer that declares how many bytes follow,
//! then the packet id, the protocol version, the requested domain as a
//! length-prefixed UTF-8 string, the port in network byte order and one byte
//! that tells what the client intends to do next.

use crate::varint::{decode_varint, varint_at, DecodeError};
use vstd::prelude::*;
use vstd::slice::slice_subrange;
use vstd::string::StrSliceExecFns;
use vstd::utf8::{decode_utf8, valid_utf8};

verus! {

/// Number of bytes the decoder looks at; whatever lies beyond is not part of
/// the window.
pub const WINDOW_CAPACITY: usize = 1024;

/// The packet id of a handshake.
pub const HANDSHAKE_PACKET_ID: i32 = 0;

/// Most characters a requested domain may have.
pub const MAX_DOMAIN_CHARS: usize = 255;

/// Most bytes the encoded domain may declare: four per character.
pub const MAX_DOMAIN_BYTES: usize = 1020;

/// What the client announces it will do after the handshake.
#[derive(Clone, Copy, Debug, PartialEq, Eq, Structural)]
pub enum NextState {
    /// A server-list status query, announced by the byte 1.
    Status,
    /// A login, announced by the byte 2.
    Login,
}

/// A decoded handshake frame.
#[derive(Debug, PartialEq, Eq)]
pub struct HandshakeFrame {
    /// Number of bytes the frame declares after its length prefix.
    pub length: i32,
    /// Always `HANDSHAKE_PACKET_ID`.
    pub packet_id: i32,
    pub protocol_version: i32,
    /// The domain the client asks for, as sent.
    pub server_address: String,
    pub server_port: u16,
    pub next_state: NextState,
}

/// The mathematical content of a `HandshakeFrame`.
pub struct FrameView {
    pub length: i32,
    pub packet_id: i32,
    pub protocol_version: i32,
    pub server_address: Seq<char>,
    pub server_port: u16,
    pub next_state: NextState,
}

impl View for HandshakeFrame {
    type V = FrameView;

    open spec fn view(&self) -> FrameView {
        FrameView {
            length: self.length,
            packet_id: self.packet_id,
            protocol_version: self.protocol_version,
            server_address: self.server_address@,
            server_port: self.server_port,
            next_state: self.next_state,
        }
    }
}

/// The part of `bytes` the decoder looks at: the first `WINDOW_CAPACITY`
/// bytes, or all of them if there are fewer.
pub open spec fn window_of(bytes: Seq<u8>) -> Seq<u8> {
    if bytes.len() <= WINDOW_CAPACITY {
        bytes
    } else {
        bytes.take(WINDOW_CAPACITY as int)
    }
}

/// The domain string that starts at `at`: its characters and the number of
/// bytes it occupies, length prefix included.
///
/// A declared length that is negative or above `MAX_DOMAIN_BYTES` is
/// `Malformed`, and so are bytes that are not UTF-8 or that hold more than
/// `MAX_DOMAIN_CHARS` characters. A window that ends before the declared
/// length is reached is `Truncated`.
pub open spec fn domain_at(window: Seq<u8>, at: int) -> Result<(Seq<char>, nat), DecodeError> {
    match varint_at(window, at) {
        Err(e) => Err(e),
        Ok((declared, used)) => {
            if declared < 0 || declared > MAX_DOMAIN_BYTES {
                Err(DecodeError::Malformed)
            } else if window.len() < at + used + declared {
                Err(DecodeError::Truncated)
            } else {
                let raw = window.subrange(at + used, at + used + declared);
                if !valid_utf8(raw) || decode_utf8(raw).len() > MAX_DOMAIN_CHARS {
                    Err(DecodeError::Malformed)
                } else {
                    Ok((decode_utf8(raw), (used + declared) as nat))
                }
            }
        },
    }
}

/// The port at `at`: two bytes, most significant first.
pub open spec fn port_at(window: Seq<u8>, at: int) -> Result<u16, DecodeError> {
    if at < 0 || window.len() < at + 2 {
        Err(DecodeError::Truncated)
    } else {
        Ok((window[at] * 0x100 + window[at + 1]) as u16)
    }
}

/// The intent marker at `at`: one byte, 1 or 2.
pub open spec fn next_state_at(window: Seq<u8>, at: int) -> Result<NextState, DecodeError> {
    if at < 0 || window.len() <= at {
        Err(DecodeError::Truncated)
    } else if window[at] == 1 {
        Ok(NextState::Status)
    } else if window[at] == 2 {
        Ok(NextState::Login)
    } else {
        Err(DecodeError::Malformed)
    }
}

/// The fields that follow the length prefix, read from `at` on. `length` is
/// what the prefix declared.
pub open spec fn body_at(window: Seq<u8>, at: int, length: i32) -> Result<FrameView, DecodeError> {
    match varint_at(window, at) {
        Err(e) => Err(e),
        Ok((packet_id, id_len)) => {
            if packet_id != HANDSHAKE_PACKET_ID {
                Err(DecodeError::Malformed)
            } else {
                match varint_at(window, at + id_len) {
                    Err(e) => Err(e),
                    Ok((protocol_version, version_len)) => {
                        match domain_at(window, at + id_len + version_len) {
                            Err(e) => Err(e),
                            Ok((server_address, domain_len)) => {
                                let port_pos = at + id_len + version_len + domain_len;
                                match port_at(window, port_pos) {
                                    Err(e) => Err(e),
                                    Ok(server_port) => {
                                        match next_state_at(window, port_pos + 2) {
                                            Err(e) => Err(e),
                                            Ok(next_state) => Ok(
                                                FrameView {
                                                    length,
                                                    packet_id,
                                                    protocol_version,
                                                    server_address,
                                                    server_port,
                                                    next_state,
                                                },
                                            ),
                                        }
                                    },
                                }
                            },
                        }
                    },
                }
            }
        },
    }
}

/// The handshake frame a window holds.
///
/// The window is `Truncated` when it holds fewer bytes than the length
/// prefix declares or when it ends inside any field, and `Malformed` when a
/// variable-length integer runs to five continuation bytes, the declared
/// length is negative, the packet id is not a handshake's, the domain is not
/// an acceptable string or the intent marker is unknown. The first field
/// that fails decides.
pub open spec fn parse_frame(window: Seq<u8>) -> Result<FrameView, DecodeError> {
    match varint_at(window, 0) {
        Err(e) => Err(e),
        Ok((length, used)) => {
            if length < 0 {
                Err(DecodeError::Malformed)
            } else if window.len() < used + length {
                Err(DecodeError::Truncated)
            } else {
                body_at(window, used as int, length)
            }
        },
    }
}

/// Turns bytes into the string they encode.
///
/// Calls `String::from_utf8`, which succeeds exactly on well-formed UTF-8 and
/// then yields the string whose encoding the bytes are.
#[verifier::external_body]
fn string_from_utf8(bytes: &[u8]) -> (out: Option<String>)
    ensures
        out is Some <==> valid_utf8(bytes@),
        out matches Some(s) ==> s@ == decode_utf8(bytes@),
{
    String::from_utf8(bytes.to_vec()).ok()
}

fn decode_domain(window: &[u8], at: usize) -> (out: Result<(String, usize), DecodeError>)
    requires
        at <= window@.len() <= WINDOW_CAPACITY,
    ensures
        match (out, domain_at(window@, at as int)) {
            (Ok((s, used)), Ok((chars, n))) => s@ == chars && used == n,
            (Err(e), Err(f)) => e == f,
            _ => false,
        },
        out matches Ok((_, used)) ==> at + used <= window@.len(),
{
    let (declared, used) = match decode_varint(window, at) {
        Ok(pair) => pair,
        Err(e) => { return Err(e); },
    };
    if declared < 0 || declared > MAX_DOMAIN_BYTES as i32 {
        return Err(DecodeError::Malformed);
    }
    let start: usize = at + used;
    let count: usize = declared as usize;
    if window.len() - start < count {
        return Err(DecodeError::Truncated);
    }
    let raw = slice_subrange(window, start, start + count);
    match string_from_utf8(raw) {
        None => Err(DecodeError::Malformed),
        Some(s) => {
            if s.as_str().unicode_len() > MAX_DOMAIN_CHARS {
                Err(DecodeError::Malformed)
            } else {
                Ok((s, used + count))
            }
        },
    }
}

fn decode_port(window: &[u8], at: usize) -> (out: Result<u16, DecodeError>)
    requires
        at <= window@.len() <= WINDOW_CAPACITY,
    ensures
        out == port_at(window@, at as int),
{
    if window.len() - at < 2 {
        return Err(DecodeError::Truncated);
    }
    let high: u16 = window[at] as u16;
    let low: u16 = window[at + 1] as u16;
    Ok(high * 0x100 + low)
}

fn decode_next_state(window: &[u8], at: usize) -> (out: Result<NextState, DecodeError>)
    requires
        at <= window@.len() <= WINDOW_CAPACITY,
    ensures
        out == next_state_at(window@, at as int),
{
    if at >= window.len() {
        return Err(DecodeError::Truncated);
    }
    let marker: u8 = window[at];
    if marker == 1 {
        Ok(NextState::Status)
    } else if marker == 2 {
        Ok(NextState::Login)
    } else {
        Err(DecodeError::Malformed)
    }
}

fn decode_body(window: &[u8], at: usize, length: i32) -> (out: Result<HandshakeFrame, DecodeError>)
    requires
        at <= window@.len() <= WINDOW_CAPACITY,
    ensures
        match (out, body_at(window@, at as int, length)) {
            (Ok(frame), Ok(model)) => frame@ == model,
            (Err(e), Err(f)) => e == f,
            _ => false,
        },
{
    let (packet_id, id_len) = match decode_varint(window, at) {
        Ok(pair) => pair,
        Err(e) => { return Err(e); },
    };
    if packet_id != HANDSHAKE_PACKET_ID {
        return Err(DecodeError::Malformed);
    }
    let version_pos: usize = at + id_len;
    let (protocol_version, version_len) = match decode_varint(window, version_pos) {
        Ok(pair) => pair,
        Err(e) => { return Err(e); },
    };
    let domain_pos: usize = version_pos + version_len;
    let (server_address, domain_len) = match decode_domain(window, domain_pos) {
        Ok(pair) => pair,
        Err(e) => { return Err(e); },
    };
    let port_pos: usize = domain_pos + domain_len;
    let server_port = match decode_port(window, port_pos) {
        Ok(port) => port,
        Err(e) => { return Err(e); },
    };
    let next_state = match decode_next_state(window, port_pos + 2) {
        Ok(state) => state,
        Err(e) => { return Err(e); },
    };
    Ok(HandshakeFrame { length, packet_id, protocol_version, server_address, server_port, next_state })
}

/// Decodes the handshake frame at the start of `bytes`.
///
/// Only the first `WINDOW_CAPACITY` bytes are looked at. The result is the
/// frame that `parse_frame` finds in that window, or the error it reports.
pub fn decode_handshake(bytes: &[u8]) -> (out: Result<HandshakeFrame, DecodeError>)
    ensures
        match (out, parse_frame(window_of(bytes@))) {
            (Ok(frame), Ok(model)) => frame@ == model,
            (Err(e), Err(f)) => e == f,
            _ => false,
        },
{
    let window = if bytes.len() <= WINDOW_CAPACITY {
        bytes
    } else {
        slice_subrange(bytes, 0, WINDOW_CAPACITY)
    };
    assert(window@ == window_of(bytes@));
    let (length, used) = match decode_varint(window, 0) {
        Ok(pair) => pair,
        Err(e) => { return Err(e); },
    };
    if length < 0 {
        return Err(DecodeError::Malformed);
    }
    if window.len() - used < length as usize {
        return Err(DecodeError::Truncated);
    }
    decode_body(window, used, length)
}

} // verus!

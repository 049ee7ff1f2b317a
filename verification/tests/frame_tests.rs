use mirp::frame::{decode_handshake, HandshakeFrame, NextState, WINDOW_CAPACITY};
use mirp::varint::{decode_varint, DecodeError};
use valence::protocol::packets::c2s::handshake::{Handshake, HandshakeNextState};
use valence::protocol::packets::{DecodePacket, EncodePacket};
use valence::protocol::{BoundedString, Encode, VarInt};

fn varint(value: i32) -> Vec<u8> {
    let mut bytes = Vec::new();
    VarInt(value).encode(&mut bytes).unwrap();
    bytes
}

fn body(version: i32, domain: &[u8], port: u16, marker: u8) -> Vec<u8> {
    let mut bytes = vec![0x00];
    bytes.extend(varint(version));
    bytes.extend(varint(domain.len() as i32));
    bytes.extend_from_slice(domain);
    bytes.extend(port.to_be_bytes());
    bytes.push(marker);
    bytes
}

fn framed(body: &[u8]) -> Vec<u8> {
    let mut bytes = varint(body.len() as i32);
    bytes.extend_from_slice(body);
    bytes
}

fn valence_frame(version: i32, domain: &str, port: u16, login: bool) -> Vec<u8> {
    let packet = Handshake {
        protocol_version: VarInt(version),
        server_adddress: BoundedString(domain.to_string()),
        server_port: port,
        next_state: if login {
            HandshakeNextState::Login
        } else {
            HandshakeNextState::Status
        },
    };
    let mut body = Vec::new();
    packet.encode_packet(&mut body).unwrap();
    framed(&body)
}

#[test]
fn decodes_a_login_handshake_written_out_by_hand() {
    let mut bytes = vec![21, 0x00, 0xf8, 0x05, 14];
    bytes.extend_from_slice(b"mc.example.com");
    bytes.extend([0x63, 0xdd, 0x02]);
    assert_eq!(
        decode_handshake(&bytes),
        Ok(HandshakeFrame {
            length: 21,
            packet_id: 0,
            protocol_version: 760,
            server_address: "mc.example.com".to_string(),
            server_port: 25565,
            next_state: NextState::Login,
        })
    );
}

#[test]
fn decodes_what_valence_writes() {
    let cases: [(i32, &str, u16, bool); 5] = [
        (760, "mc.example.com", 25565, true),
        (47, "localhost", 1, false),
        (-1, "", 0, true),
        (i32::MAX, "play.example.org.", 65535, false),
        (763, "b\u{fc}cher.example", 443, true),
    ];
    for (version, domain, port, login) in cases {
        let bytes = valence_frame(version, domain, port, login);
        let frame = decode_handshake(&bytes).unwrap();
        assert_eq!(frame.length as usize + 1, bytes.len());
        assert_eq!(frame.packet_id, 0);
        assert_eq!(frame.protocol_version, version);
        assert_eq!(frame.server_address, domain);
        assert_eq!(frame.server_port, port);
        assert_eq!(
            frame.next_state,
            if login { NextState::Login } else { NextState::Status }
        );
    }
}

#[test]
fn the_domain_is_kept_as_sent() {
    let bytes = valence_frame(760, "mc.example.com..", 25565, true);
    let frame = decode_handshake(&bytes).unwrap();
    assert_eq!(frame.server_address, "mc.example.com..");
}

#[test]
fn bytes_after_the_frame_are_ignored() {
    let mut bytes = valence_frame(760, "mc.example.com", 25565, true);
    let expected = decode_handshake(&bytes).unwrap();
    bytes.extend([0x01, 0x00, 0xff, 0xff]);
    assert_eq!(decode_handshake(&bytes), Ok(expected));
}

#[test]
fn every_proper_prefix_of_a_frame_is_truncated() {
    let bytes = valence_frame(760, "mc.example.com", 25565, true);
    for cut in 0..bytes.len() {
        assert_eq!(
            decode_handshake(&bytes[..cut]),
            Err(DecodeError::Truncated),
            "prefix of {cut} bytes"
        );
    }
}

#[test]
fn a_length_prefix_of_five_continuation_bytes_is_malformed() {
    let bytes = [0xff, 0xff, 0xff, 0xff, 0xff, 0x00, 0x00];
    assert_eq!(decode_handshake(&bytes), Err(DecodeError::Malformed));
}

#[test]
fn a_negative_declared_length_is_malformed() {
    let mut bytes = varint(-1);
    bytes.extend(body(760, b"mc.example.com", 25565, 2));
    assert_eq!(decode_handshake(&bytes), Err(DecodeError::Malformed));
}

#[test]
fn a_window_shorter_than_the_declared_length_is_truncated() {
    let mut bytes = varint(200);
    bytes.extend(body(760, b"mc.example.com", 25565, 2));
    assert_eq!(decode_handshake(&bytes), Err(DecodeError::Truncated));
}

#[test]
fn a_field_that_runs_past_the_window_is_truncated() {
    let whole = body(760, b"mc.example.com", 25565, 2);
    let mut bytes = varint(3);
    bytes.extend_from_slice(&whole[..whole.len() - 1]);
    assert_eq!(decode_handshake(&bytes), Err(DecodeError::Truncated));
}

#[test]
fn another_packet_id_is_malformed() {
    let mut wrong = body(760, b"mc.example.com", 25565, 2);
    wrong[0] = 0x01;
    assert_eq!(decode_handshake(&framed(&wrong)), Err(DecodeError::Malformed));
}

#[test]
fn an_unknown_intent_marker_is_malformed() {
    for marker in [0u8, 3, 0x81, 0xff] {
        let bytes = framed(&body(760, b"mc.example.com", 25565, marker));
        assert_eq!(decode_handshake(&bytes), Err(DecodeError::Malformed));
    }
}

#[test]
fn both_intent_markers_are_read() {
    let status = framed(&body(760, b"a", 1, 1));
    let login = framed(&body(760, b"a", 1, 2));
    assert_eq!(decode_handshake(&status).unwrap().next_state, NextState::Status);
    assert_eq!(decode_handshake(&login).unwrap().next_state, NextState::Login);
}

#[test]
fn the_port_is_read_most_significant_byte_first() {
    let bytes = framed(&body(760, b"a", 0x0102, 2));
    assert_eq!(decode_handshake(&bytes).unwrap().server_port, 258);
}

#[test]
fn a_domain_that_is_not_utf8_is_malformed() {
    let bytes = framed(&body(760, &[b'm', b'c', 0xff, b'x'], 25565, 2));
    assert_eq!(decode_handshake(&bytes), Err(DecodeError::Malformed));
    let overlong = framed(&body(760, &[0xc0, 0xae], 25565, 2));
    assert_eq!(decode_handshake(&overlong), Err(DecodeError::Malformed));
}

#[test]
fn a_declared_domain_length_out_of_bounds_is_malformed() {
    let mut negative = vec![0x00];
    negative.extend(varint(760));
    negative.extend(varint(-5));
    negative.extend([0u8; 8]);
    assert_eq!(decode_handshake(&framed(&negative)), Err(DecodeError::Malformed));

    let mut huge = vec![0x00];
    huge.extend(varint(760));
    huge.extend(varint(1021));
    huge.extend([b'a'; 8]);
    assert_eq!(decode_handshake(&framed(&huge)), Err(DecodeError::Malformed));
}

#[test]
fn a_domain_of_255_characters_is_the_longest() {
    let longest = "a".repeat(255);
    let bytes = framed(&body(760, longest.as_bytes(), 25565, 2));
    assert_eq!(decode_handshake(&bytes).unwrap().server_address, longest);

    let too_long = "a".repeat(256);
    let bytes = framed(&body(760, too_long.as_bytes(), 25565, 2));
    assert_eq!(decode_handshake(&bytes), Err(DecodeError::Malformed));
}

#[test]
fn characters_are_counted_not_bytes() {
    let wide = "\u{e9}".repeat(255);
    assert_eq!(wide.len(), 510);
    let bytes = framed(&body(760, wide.as_bytes(), 25565, 2));
    assert_eq!(decode_handshake(&bytes).unwrap().server_address, wide);
}

#[test]
fn nothing_beyond_the_window_capacity_is_read() {
    let domain = "\u{20ac}".repeat(255);
    assert_eq!(domain.len(), 765);
    let inner = body(760, domain.as_bytes(), 25565, 2);
    let fits = framed(&inner);
    assert!(fits.len() <= WINDOW_CAPACITY);
    assert_eq!(decode_handshake(&fits).unwrap().server_address, domain);

    let long_domain = "\u{10348}".repeat(255);
    assert_eq!(long_domain.len(), 1020);
    let spills = framed(&body(760, long_domain.as_bytes(), 25565, 2));
    assert!(spills.len() > WINDOW_CAPACITY);
    assert_eq!(decode_handshake(&spills), Err(DecodeError::Truncated));
}

#[test]
fn a_frame_is_read_from_a_longer_stream() {
    let mut bytes = valence_frame(760, "mc.example.com", 25565, true);
    let expected = decode_handshake(&bytes).unwrap();
    bytes.extend(std::iter::repeat(0xff).take(4000));
    assert_eq!(decode_handshake(&bytes), Ok(expected));
}

#[test]
fn a_frame_that_ends_beyond_the_window_is_truncated() {
    let domain = "\u{10348}".repeat(254);
    let mut bytes = framed(&body(760, domain.as_bytes(), 25565, 2));
    assert_eq!(bytes.len(), WINDOW_CAPACITY + 2);
    bytes.extend([0u8; 64]);
    assert_eq!(decode_handshake(&bytes), Err(DecodeError::Truncated));
    let shorter = "\u{10348}".repeat(253) + "ab";
    let bytes = framed(&body(760, shorter.as_bytes(), 25565, 2));
    assert_eq!(bytes.len(), WINDOW_CAPACITY);
    assert_eq!(decode_handshake(&bytes).unwrap().server_address, shorter);
}

#[test]
fn an_empty_window_is_truncated() {
    assert_eq!(decode_handshake(&[]), Err(DecodeError::Truncated));
}

/// Where the intent marker of a frame body stands, as far as the fields
/// before it can be walked.
fn marker_position(body: &[u8]) -> Option<usize> {
    let (_, id_len) = decode_varint(body, 0).ok()?;
    let (_, version_len) = decode_varint(body, id_len).ok()?;
    let (declared, prefix_len) = decode_varint(body, id_len + version_len).ok()?;
    let position = id_len + version_len + prefix_len + usize::try_from(declared).ok()? + 2;
    (position < body.len()).then_some(position)
}

#[test]
fn frames_are_accepted_as_valence_accepts_them() {
    let domains = ["mc.example.com", "a", "", "play.example.org.", "b\u{fc}cher.example"];
    let mut seed: u32 = 0x9e37_79b9;
    let mut next = move || {
        seed ^= seed << 13;
        seed ^= seed >> 17;
        seed ^= seed << 5;
        seed
    };
    let mut accepted = 0;
    let mut rejected = 0;
    for round in 0..6000usize {
        let domain = domains[round % domains.len()];
        let mut body = body(next() as i32 >> (round % 32), domain.as_bytes(), next() as u16, 1 + (round % 2) as u8);
        for _ in 0..(round % 4) {
            let at = next() as usize % body.len();
            body[at] = match next() % 4 {
                0 => next() as u8,
                1 => body[at] ^ 0x80,
                2 => body[at].wrapping_add(1),
                _ => (next() % 3) as u8,
            };
        }
        if round % 7 == 0 {
            body.push(next() as u8 % 4);
        }
        if round % 11 == 0 {
            body.pop();
        }

        let mut reader = &body[..];
        let theirs = Handshake::decode_packet(&mut reader);
        let ours = decode_handshake(&framed(&body));
        match theirs {
            Ok(packet) => {
                let marker = marker_position(&body).unwrap();
                if body[marker] >= 0x80 {
                    assert_eq!(ours, Err(DecodeError::Malformed), "{body:?}");
                    rejected += 1;
                    continue;
                }
                let frame = ours.unwrap();
                assert_eq!(frame.length as usize, body.len());
                assert_eq!(frame.packet_id, 0);
                assert_eq!(frame.protocol_version, packet.protocol_version.0);
                assert_eq!(frame.server_address, packet.server_adddress.0);
                assert_eq!(frame.server_port, packet.server_port);
                assert_eq!(
                    frame.next_state == NextState::Login,
                    matches!(packet.next_state, HandshakeNextState::Login)
                );
                assert_eq!(reader.len(), body.len() - marker - 1);
                accepted += 1;
            }
            Err(_) => {
                assert!(ours.is_err(), "{body:?}");
                rejected += 1;
            }
        }
    }
    assert!(accepted > 1000);
    assert!(rejected > 1000);
}

#[test]
fn an_intent_marker_spread_over_two_bytes_is_malformed() {
    let mut inner = body(760, b"mc.example.com", 25565, 0x82);
    inner.push(0x00);
    let mut reader = &inner[..];
    assert!(Handshake::decode_packet(&mut reader).is_ok());
    assert_eq!(decode_handshake(&framed(&inner)), Err(DecodeError::Malformed));
}

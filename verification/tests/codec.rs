// Packet-level tests: exact wire bytes, decoding, and the per-variant
// framing rules, driven through in-memory transports.

use rcon::battlefield3::Btf3Packet;
use rcon::error::Error;
use rcon::factorio::FactorioPacket;
use rcon::packet::{Packet, PacketType};
use rcon::transport::MemoryTransport;

#[test]
fn packet_encode_exact_bytes() {
    let p = Packet::new(1, PacketType::ExecCommand, String::from("hi"));
    let bytes = p.encode();
    let expected: Vec<u8> = vec![
        12, 0, 0, 0, // length = 10 + 2
        1, 0, 0, 0, // id
        2, 0, 0, 0, // ExecCommand tag
        b'h', b'i', // body
        0, 0, // terminators
    ];
    assert_eq!(bytes, expected);
}

#[test]
fn packet_auth_tag_is_three() {
    let p = Packet::new(7, PacketType::Auth, String::from(""));
    let bytes = p.encode();
    assert_eq!(bytes[8..12], [3, 0, 0, 0]);
    assert_eq!(bytes[0..4], [10, 0, 0, 0]);
}

#[test]
fn packet_negative_id_little_endian() {
    let p = Packet::new(-1, PacketType::AuthResponse, String::from(""));
    let bytes = p.encode();
    assert_eq!(bytes[4..8], [0xff, 0xff, 0xff, 0xff]);
}

#[test]
fn packet_decode_round_trip() {
    let p = Packet::new(42, PacketType::AuthResponse, String::from("abc"));
    let mut t = MemoryTransport::new(p.encode());
    let q = Packet::deserialize(&mut t).unwrap();
    assert_eq!(q.get_id(), 42);
    assert_eq!(q.get_type(), PacketType::AuthResponse);
    assert_eq!(q.get_body(), "abc");
    assert_eq!(t.remaining(), 0);
}

#[test]
fn packet_decode_multibyte_utf8_body() {
    let p = Packet::new(3, PacketType::ResponseValue, String::from("héllo wörld ✓"));
    let mut t = MemoryTransport::new(p.encode());
    let q = Packet::deserialize(&mut t).unwrap();
    assert_eq!(q.get_body(), "héllo wörld ✓");
}

#[test]
fn packet_decode_rejects_invalid_utf8() {
    // length 12 => two body bytes, which are not valid UTF-8
    let bytes: Vec<u8> = vec![12, 0, 0, 0, 1, 0, 0, 0, 0, 0, 0, 0, 0xff, 0xfe, 0, 0];
    let mut t = MemoryTransport::new(bytes);
    assert_eq!(Packet::deserialize(&mut t), Err(Error::MalformedPacket));
}

#[test]
fn packet_decode_rejects_impossible_length() {
    // a declared length below the fixed header size cannot frame a packet
    let bytes: Vec<u8> = vec![5, 0, 0, 0, 1, 0, 0, 0, 0, 0, 0, 0, 0, 0];
    let mut t = MemoryTransport::new(bytes);
    assert_eq!(Packet::deserialize(&mut t), Err(Error::MalformedPacket));
}

#[test]
fn packet_decode_rejects_huge_length() {
    // a declared length beyond the allocation bound is refused outright
    let bytes: Vec<u8> = vec![0xff, 0xff, 0xff, 0x7f, 1, 0, 0, 0, 0, 0, 0, 0];
    let mut t = MemoryTransport::new(bytes);
    assert_eq!(Packet::deserialize(&mut t), Err(Error::MalformedPacket));
}

#[test]
fn packet_decode_truncated_stream_is_io() {
    let bytes: Vec<u8> = vec![12, 0, 0, 0, 1, 0];
    let mut t = MemoryTransport::new(bytes);
    match Packet::deserialize(&mut t) {
        Err(Error::Io(_)) => (),
        other => panic!("expected a transport failure, got {:?}", other),
    }
}

#[test]
fn packet_is_error_on_negative_id() {
    assert!(Packet::new(-1, PacketType::AuthResponse, String::from("")).is_error());
    assert!(!Packet::new(1, PacketType::AuthResponse, String::from("")).is_error());
}

#[test]
fn packet_type_tag_vocabulary() {
    assert_eq!(PacketType::Auth.to_i32(), 3);
    assert_eq!(PacketType::AuthResponse.to_i32(), 2);
    assert_eq!(PacketType::ExecCommand.to_i32(), 2);
    assert_eq!(PacketType::ResponseValue.to_i32(), 0);
    assert_eq!(PacketType::Unknown(9).to_i32(), 9);
    assert_eq!(PacketType::from_i32(3, true), PacketType::Auth);
    assert_eq!(PacketType::from_i32(2, true), PacketType::AuthResponse);
    assert_eq!(PacketType::from_i32(2, false), PacketType::ExecCommand);
    assert_eq!(PacketType::from_i32(0, true), PacketType::ResponseValue);
    assert_eq!(PacketType::from_i32(7, true), PacketType::Unknown(7));
}

#[test]
fn factorio_packet_round_trip() {
    let p = FactorioPacket::new(5, PacketType::Auth, String::from("secret"));
    let mut t = MemoryTransport::new(p.encode());
    let q = FactorioPacket::deserialize(&mut t).unwrap();
    assert_eq!(p, q);
    assert_eq!(q.get_id(), 5);
    assert_eq!(q.get_body(), "secret");
    assert_eq!(q.get_type(), PacketType::Auth);
}

#[test]
fn factorio_packet_keeps_raw_tag() {
    let p = FactorioPacket::new(1, PacketType::ResponseValue, String::from(""));
    let bytes = p.encode();
    assert_eq!(bytes[8..12], [0, 0, 0, 0]);
    let mut t = MemoryTransport::new(bytes);
    let q = FactorioPacket::deserialize(&mut t).unwrap();
    assert_eq!(q.get_type(), PacketType::ResponseValue);
    assert!(!q.is_error());
}

#[test]
fn bf3_word_framing_say_hi() {
    let p = Btf3Packet::new(1, PacketType::ExecCommand, String::from("say hi"));
    let bytes = p.encode();
    let expected: Vec<u8> = vec![
        1, 0, 0, 0, // sequence: request, id 1
        27, 0, 0, 0, // packet size: 12 + (4 + 3 + 1) + (4 + 2 + 1)
        2, 0, 0, 0, // word count
        3, 0, 0, 0, b's', b'a', b'y', 0, // first word
        2, 0, 0, 0, b'h', b'i', 0, // second word
    ];
    assert_eq!(bytes, expected);
}

#[test]
fn bf3_word_framing_decodes_back() {
    let p = Btf3Packet::new(1, PacketType::ExecCommand, String::from("say hi"));
    let mut t = MemoryTransport::new(p.encode());
    let q = Btf3Packet::deserialize(&mut t).unwrap();
    assert_eq!(q.get_body(), "say hi");
    assert_eq!(q.get_type(), PacketType::ExecCommand);
    assert_eq!(q.get_id(), 1);
    assert_eq!(t.remaining(), 0);
}

#[test]
fn bf3_response_sequence_carries_type_bits() {
    let p = Btf3Packet::new(9, PacketType::ResponseValue, String::from("OK"));
    let bytes = p.encode();
    // 3 << 29 or-ed over the id, little-endian
    assert_eq!(bytes[0..4], [9, 0, 0, 0x60]);
    let mut t = MemoryTransport::new(bytes);
    let q = Btf3Packet::deserialize(&mut t).unwrap();
    assert_eq!(q.get_type(), PacketType::ResponseValue);
    assert_eq!(q.get_id(), 9);
}

#[test]
fn bf3_is_error_looks_for_ok() {
    let ok = Btf3Packet::new(1, PacketType::ResponseValue, String::from("OK"));
    assert!(!ok.is_error());
    let also_ok = Btf3Packet::new(1, PacketType::ResponseValue, String::from("everything OKay"));
    assert!(!also_ok.is_error());
    let bad = Btf3Packet::new(1, PacketType::ResponseValue, String::from("InvalidPassword"));
    assert!(bad.is_error());
}

#[test]
fn bf3_decode_rejects_unknown_type_bits() {
    // bit 31 set: origin bit patterns the decoder does not know
    let bytes: Vec<u8> = vec![0, 0, 0, 0x80, 12, 0, 0, 0, 0, 0, 0, 0];
    let mut t = MemoryTransport::new(bytes);
    assert_eq!(Btf3Packet::deserialize(&mut t), Err(Error::MalformedPacket));
}

#[test]
fn bf3_decode_rejects_bad_accounting() {
    let p = Btf3Packet::new(1, PacketType::ExecCommand, String::from("say hi"));
    let mut bytes = p.encode();
    // corrupt the declared size
    bytes[4] = 26;
    let mut t = MemoryTransport::new(bytes);
    assert_eq!(Btf3Packet::deserialize(&mut t), Err(Error::MalformedPacket));
}

#[test]
fn bf3_decode_rejects_negative_word_count() {
    let bytes: Vec<u8> = vec![1, 0, 0, 0, 12, 0, 0, 0, 0xff, 0xff, 0xff, 0xff];
    let mut t = MemoryTransport::new(bytes);
    assert_eq!(Btf3Packet::deserialize(&mut t), Err(Error::MalformedPacket));
}

#[test]
fn bf3_empty_body_has_no_words() {
    let p = Btf3Packet::new(1, PacketType::ExecCommand, String::from(""));
    let bytes = p.encode();
    assert_eq!(bytes.len(), 12);
    assert_eq!(bytes[4..8], [12, 0, 0, 0]);
    assert_eq!(bytes[8..12], [0, 0, 0, 0]);
    let mut t = MemoryTransport::new(bytes);
    let q = Btf3Packet::deserialize(&mut t).unwrap();
    assert_eq!(q.get_body(), "");
}

#[test]
fn bf3_extra_whitespace_normalizes_to_words() {
    // the wire carries words, not raw whitespace: runs collapse
    let p = Btf3Packet::new(1, PacketType::ExecCommand, String::from("  say\t hi "));
    let mut t = MemoryTransport::new(p.encode());
    let q = Btf3Packet::deserialize(&mut t).unwrap();
    assert_eq!(q.get_body(), "say hi");
}
